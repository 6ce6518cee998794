//! The third pass: reading statements from a cursor over blocks.
//!
//! Each statement is recognised by its leading keyword; a line that starts
//! with none of them is read as dialogue. Errors inside a block are soft: the
//! line is skipped and its error collected.
use vstd::prelude::*;
pub use crate::ast::ASTVec;
use crate::ast::Node;
use crate::error::error_text;
use crate::grouper::BlockView;
use crate::lexer::{block_message, fade_end, audio_end, is_keyword, noblock_message, nonspace_end, require_message};
use crate::literal::{string_end, string_value};
use crate::tokens::{integer_end, keyword_at, lemma_ws_end, name_end, word_end, ws_end};
use crate::lexer::{advanced, at, skipped, Lexer, LexerView};
use crate::ast::{view_ast, view_asts, lemma_view_asts_push};
pub use crate::ast::AST;
use crate::chars::{append_chars, chars_eq, chars_of, space_char, string_of};
use crate::ast::{loc_of, view_opt, with_loc};
pub use crate::error::ParseError;
use crate::chars::is_space;

verus! {

/// Whether the keyword `w` starts the text after whitespace at `p`.
pub open spec fn kw(t: Seq<char>, p: int, w: Seq<char>) -> bool {
    let q = ws_end(t, p);
    q < t.len() && keyword_at(t, q, w)
}

/// The position after the keyword `w` that starts the text at `p`.
pub open spec fn after_kw(t: Seq<char>, p: int, w: Seq<char>) -> int {
    ws_end(t, p) + w.len()
}

/// Whether only whitespace is left from `p` on.
pub open spec fn eol_at(t: Seq<char>, p: int) -> bool {
    ws_end(t, p) >= t.len()
}

/// A name at `p`, and the position after it. A keyword is no name, and
/// leaves the position where it was.
pub open spec fn name_at(t: Seq<char>, p: int) -> (Option<Seq<char>>, int) {
    let q = ws_end(t, p);
    let e = name_end(t, q);
    if e > q && !is_keyword(t.subrange(q, e)) {
        (Some(t.subrange(q, e)), e)
    } else if e > q {
        (None, p)
    } else {
        (None, q)
    }
}

/// The names that follow one another from `p` on.
pub open spec fn image_words(t: Seq<char>, p: int) -> Seq<Seq<char>>
    decreases t.len() - p,
{
    let (n, e) = name_at(t, p);
    if n is Some && p < e <= t.len() {
        seq![n->Some_0] + image_words(t, e)
    } else {
        seq![]
    }
}

/// The position after the names that follow one another from `p` on.
pub open spec fn image_end(t: Seq<char>, p: int) -> int
    decreases t.len() - p,
{
    let (n, e) = name_at(t, p);
    if n is Some && p < e <= t.len() {
        image_end(t, e)
    } else {
        e
    }
}

/// `s` without trailing whitespace.
pub open spec fn trim_end(s: Seq<char>) -> Seq<char>
    decreases s.len(),
{
    if s.len() > 0 && is_space(s.last()) {
        trim_end(s.drop_last())
    } else {
        s
    }
}

/// The words joined by single spaces.
pub open spec fn join_words(ws: Seq<Seq<char>>) -> Seq<char>
    decreases ws.len(),
{
    if ws.len() == 0 {
        seq![]
    } else if ws.len() == 1 {
        ws[0]
    } else {
        ws[0] + seq![' '] + join_words(ws.subrange(1, ws.len() as int))
    }
}

/// The image name at `p`: the names joined by spaces, all but the first
/// without trailing whitespace; empty if there is no name.
pub open spec fn image_spec(t: Seq<char>, p: int) -> Seq<char> {
    let ws = image_words(t, p);
    if ws.len() == 0 {
        seq![]
    } else {
        join_words(seq![ws[0]] + ws.subrange(1, ws.len() as int).map_values(|w: Seq<char>| trim_end(w)))
    }
}

/// The audio kind at `p` and the position after it, if it is `music` or
/// `sound`.
pub open spec fn audio_kind(t: Seq<char>, p: int) -> Option<(Seq<char>, int)> {
    let (n, e) = name_at(t, p);
    if n == Some("music"@) || n == Some("sound"@) {
        Some((n->Some_0, e))
    } else {
        None
    }
}

/// `s` without its double quotes.
pub open spec fn remove_quotes(s: Seq<char>) -> Seq<char>
    decreases s.len(),
{
    if s.len() == 0 {
        s
    } else if s.last() == '"' {
        remove_quotes(s.drop_last())
    } else {
        remove_quotes(s.drop_last()).push(s.last())
    }
}

/// The quoted audio file name at `p`, unquoted, and the position after it.
pub open spec fn audio_file(t: Seq<char>, p: int) -> Option<(Seq<char>, int)> {
    let q = ws_end(t, p);
    let e = audio_end(t, q);
    if e > q {
        Some((remove_quotes(t.subrange(q, e)), e))
    } else {
        None
    }
}

/// The optional fade of a `stop` statement at `p`: effect, seconds as
/// written, and the position after them.
pub open spec fn stop_args(t: Seq<char>, p: int) -> (Option<Seq<char>>, Option<Seq<char>>, int) {
    let q = ws_end(t, p);
    let e = fade_end(t, q);
    if e > q {
        (Some("fadeout"@), Some(t.subrange(q + 8, e)), e)
    } else {
        (None, None, q)
    }
}

/// The value of a sequence of decimal digits.
pub open spec fn digits_value(s: Seq<char>) -> nat
    decreases s.len(),
{
    if s.len() == 0 {
        0
    } else {
        digits_value(s.drop_last()) * 10 + (s.last() as u32 - '0' as u32) as nat
    }
}

/// The value of an integer token: an optional sign, then digits.
pub open spec fn integer_value(s: Seq<char>) -> int {
    if s.len() > 0 && s[0] == '-' {
        -(digits_value(s.subrange(1, s.len() as int)) as int)
    } else if s.len() > 0 && s[0] == '+' {
        digits_value(s.subrange(1, s.len() as int)) as int
    } else {
        digits_value(s) as int
    }
}

pub open spec fn fits_i64(v: int) -> bool {
    i64::MIN <= v <= i64::MAX
}

pub open spec fn eol_message() -> Seq<char> {
    "end of line expected"@
}

pub open spec fn priority_message() -> Seq<char> {
    "init priority is out of range"@
}

/// `return [EXPR]`, read from the position `p` after the keyword.
pub open spec fn return_stmt(t: Seq<char>, p: int, has_sub: bool, loc: nat) -> Result<Node, Seq<char>> {
    let e = t.subrange(ws_end(t, p), t.len() as int);
    if has_sub {
        Err(noblock_message("return statement"@))
    } else {
        Ok(Node::Return(loc, if e.len() == 0 { None } else { Some(e) }))
    }
}

/// `jump NAME`, read from the position `p` after the keyword.
pub open spec fn jump_stmt(t: Seq<char>, p: int, has_sub: bool, loc: nat) -> Result<Node, Seq<char>> {
    let (n, e) = name_at(t, p);
    if has_sub {
        Err(noblock_message("jump statement"@))
    } else if !eol_at(t, e) {
        Err(eol_message())
    } else {
        Ok(Node::Jump(loc, if n is Some { n->Some_0 } else { seq![] }, false))
    }
}

/// `scene [IMAGE]`, read from the position `p` after the keyword.
pub open spec fn scene_stmt(t: Seq<char>, p: int, has_sub: bool, loc: nat) -> Result<Node, Seq<char>> {
    if has_sub {
        Err(noblock_message("scene statement"@))
    } else if eol_at(t, p) {
        Ok(Node::Scene(loc, None, "master"@))
    } else {
        Ok(Node::Scene(loc, Some(image_spec(t, p)), "master"@))
    }
}

/// `game_mechanic "TEXT"`, read from the position `p` after the keyword.
pub open spec fn game_mechanic_stmt(t: Seq<char>, p: int, has_sub: bool, loc: nat) -> Result<Node, Seq<char>> {
    let q = ws_end(t, p);
    let e = string_end(t, q);
    if e <= q {
        Err("Expected a string after 'game_mechanic' keyword."@)
    } else if !eol_at(t, e) {
        Err(eol_message())
    } else if has_sub {
        Err(noblock_message("game_mechanic statement"@))
    } else {
        Ok(Node::GameMechanic(loc, string_value(t, q, e)))
    }
}

/// `llm_generate WHO ["PROMPT"]`, read from the position `p` after the
/// keyword.
pub open spec fn llm_generate_stmt(t: Seq<char>, p: int, has_sub: bool, loc: nat) -> Result<Node, Seq<char>> {
    let q = ws_end(t, p);
    let e = word_end(t, q);
    let q2 = ws_end(t, e);
    let e2 = string_end(t, q2);
    let prompt = if e2 > q2 { Some(string_value(t, q2, e2)) } else { None };
    let pos_c = if e2 > q2 { e2 } else { q2 };
    if e <= q {
        Err("Expected word after 'llm_generate' keyword."@)
    } else if !eol_at(t, pos_c) {
        Err(eol_message())
    } else if has_sub {
        Err(noblock_message("llm_generate statement"@))
    } else {
        Ok(Node::LLMGenerate(loc, t.subrange(q, e), prompt))
    }
}

/// `show IMAGE` (when `show` holds) or `hide IMAGE`, read from the position
/// `p` after the keyword.
pub open spec fn show_hide_stmt(t: Seq<char>, p: int, has_sub: bool, loc: nat, show: bool) -> Result<Node, Seq<char>> {
    let im = image_spec(t, p);
    if !eol_at(t, image_end(t, p)) {
        Err(eol_message())
    } else if has_sub {
        Err(noblock_message(if show { "show statement"@ } else { "hide statement"@ }))
    } else if show {
        Ok(Node::Show(loc, im))
    } else {
        Ok(Node::Hide(loc, im))
    }
}

pub open spec fn kind_message() -> Seq<char> {
    "Play or sound is required"@
}

pub open spec fn file_message() -> Seq<char> {
    "provide mp3, ogg or wav file"@
}

/// `play KIND "FILE"`, read from the position `p` after the keyword.
pub open spec fn play_stmt(t: Seq<char>, p: int, loc: nat) -> Result<Node, Seq<char>> {
    match audio_kind(t, p) {
        None => Err(kind_message()),
        Some((k, pos_b)) => match audio_file(t, pos_b) {
            None => Err(file_message()),
            Some((f, pos_c)) => if eol_at(t, pos_c) {
                Ok(Node::Play(loc, k, f))
            } else {
                Err(eol_message())
            },
        },
    }
}

/// `stop KIND [fadeout SECONDS]`, read from the position `p` after the
/// keyword.
pub open spec fn stop_stmt(t: Seq<char>, p: int, loc: nat) -> Result<Node, Seq<char>> {
    match audio_kind(t, p) {
        None => Err(kind_message()),
        Some((k, pos_b)) => {
            let (effect, secs, pos_c) = stop_args(t, pos_b);
            if eol_at(t, pos_c) {
                Ok(Node::Stop(loc, k, effect, secs))
            } else {
                Err(eol_message())
            }
        },
    }
}

/// `label NAME:` and its block, read from the position `p` after the
/// keyword; `body` is what reading the block gave.
pub open spec fn label_stmt(t: Seq<char>, p: int, loc: nat, body: Result<Seq<Node>, Seq<char>>) -> Result<Node, Seq<char>> {
    let (n, _) = name_at(t, p);
    match body {
        Err(m) => Err(m),
        Ok(b) => Ok(Node::Label(loc, if n is Some { n->Some_0 } else { seq![] }, b, None)),
    }
}

/// `init [PRIORITY]:` and its block, read from the position `p` after the
/// keyword; `body` is what reading the block gave.
pub open spec fn init_stmt(
    t: Seq<char>,
    p: int,
    has_sub: bool,
    loc: nat,
    body: Result<Seq<Node>, Seq<char>>,
) -> Result<Node, Seq<char>> {
    let q = ws_end(t, p);
    let e = integer_end(t, q);
    let pos_b = if e > q { e } else { q };
    let prio = if e > q { integer_value(t.subrange(q, e)) } else { 0 };
    let q3 = ws_end(t, pos_b);
    if !(q3 < t.len() && t[q3] == ':') {
        Err(require_message(":"@))
    } else if !eol_at(t, q3 + 1) {
        Err(eol_message())
    } else if !has_sub {
        Err(block_message("init statement"@))
    } else if !fits_i64(prio) {
        Err(priority_message())
    } else {
        match body {
            Err(m) => Err(m),
            Ok(b) => Ok(Node::Init(loc, b, prio)),
        }
    }
}

/// A line that starts with no keyword: dialogue in one of three shapes.
pub open spec fn say_stmt(t: Seq<char>, q: int, has_sub: bool, loc: nat) -> Result<Node, Seq<char>> {
    let e = word_end(t, q);
    let q2 = ws_end(t, e);
    let e2 = string_end(t, q2);
    let e3 = string_end(t, q);
    let x = nonspace_end(t, q);
    let q4 = ws_end(t, x);
    let e4 = string_end(t, q4);
    if e > q && e2 > q2 {
        if has_sub {
            Err(noblock_message(t.subrange(q, e) + " statement"@))
        } else {
            Ok(Node::Say(loc, Some(t.subrange(q, e)), string_value(t, q2, e2)))
        }
    } else if e3 > q && eol_at(t, e3) {
        if has_sub {
            Err(noblock_message("say statement"@))
        } else {
            Ok(Node::Say(loc, None, string_value(t, q, e3)))
        }
    } else if q < t.len() && e4 > q4 {
        if !eol_at(t, e4) {
            Err(eol_message())
        } else if has_sub {
            Err(noblock_message("say statement"@))
        } else {
            Ok(Node::Say(loc, Some(t.subrange(q, x)), string_value(t, q4, e4)))
        }
    } else {
        Err("expected statement."@)
    }
}

/// What reading one statement from position `p0` of the line `t` gives: the
/// statement, or the message of its error. `has_sub` says whether the line
/// has a block, and `body` is what reading that block gave: its statements,
/// or its first error.
pub open spec fn statement(
    t: Seq<char>,
    p0: int,
    has_sub: bool,
    loc: nat,
    body: Result<Seq<Node>, Seq<char>>,
) -> Result<Node, Seq<char>> {
    let p = ws_end(t, p0);
    if kw(t, p, "return"@) {
        return_stmt(t, after_kw(t, p, "return"@), has_sub, loc)
    } else if kw(t, p, "jump"@) {
        jump_stmt(t, after_kw(t, p, "jump"@), has_sub, loc)
    } else if kw(t, p, "scene"@) {
        scene_stmt(t, after_kw(t, p, "scene"@), has_sub, loc)
    } else if kw(t, p, "game_mechanic"@) {
        game_mechanic_stmt(t, after_kw(t, p, "game_mechanic"@), has_sub, loc)
    } else if kw(t, p, "llm_generate"@) {
        llm_generate_stmt(t, after_kw(t, p, "llm_generate"@), has_sub, loc)
    } else if kw(t, p, "show"@) {
        show_hide_stmt(t, after_kw(t, p, "show"@), has_sub, loc, true)
    } else if kw(t, p, "hide"@) {
        show_hide_stmt(t, after_kw(t, p, "hide"@), has_sub, loc, false)
    } else if kw(t, p, "play"@) {
        play_stmt(t, after_kw(t, p, "play"@), loc)
    } else if kw(t, p, "stop"@) {
        stop_stmt(t, after_kw(t, p, "stop"@), loc)
    } else if kw(t, p, "label"@) {
        label_stmt(t, after_kw(t, p, "label"@), loc, body)
    } else if kw(t, p, "define"@) {
        Ok(Node::Define(loc, t.subrange(ws_end(t, after_kw(t, p, "define"@)), t.len() as int)))
    } else if kw(t, p, "init"@) {
        init_stmt(t, after_kw(t, p, "init"@), has_sub, loc, body)
    } else {
        say_stmt(t, p, has_sub, loc)
    }
}

/// The statements among the outcomes, in order.
pub open spec fn oks(outs: Seq<Result<Node, Seq<char>>>) -> Seq<Node>
    decreases outs.len(),
{
    if outs.len() == 0 {
        seq![]
    } else {
        let rest = oks(outs.drop_last());
        match outs.last() {
            Ok(n) => rest.push(n),
            Err(_) => rest,
        }
    }
}

/// The errors among the outcomes, in order.
pub open spec fn errs(outs: Seq<Result<Node, Seq<char>>>) -> Seq<Seq<char>>
    decreases outs.len(),
{
    if outs.len() == 0 {
        seq![]
    } else {
        let rest = errs(outs.drop_last());
        match outs.last() {
            Ok(_) => rest,
            Err(e) => rest.push(e),
        }
    }
}

/// What a block body gives its statement: all its statements, or its first
/// error.
pub open spec fn body_of(outs: Seq<Result<Node, Seq<char>>>) -> Result<Seq<Node>, Seq<char>> {
    if errs(outs).len() == 0 {
        Ok(oks(outs))
    } else {
        Err(errs(outs)[0])
    }
}

/// The outcome of a block: its statement, or its error rendered as
/// `On line L of F: MSG`.
pub open spec fn block_outcome(b: BlockView) -> Result<Node, Seq<char>>
    decreases b,
{
    let body = body_of(block_outcomes(b.subblocks));
    match statement(b.text, 0, b.subblocks.len() > 0, b.line_number, body) {
        Ok(n) => Ok(n),
        Err(m) => Err(error_text(b.filename, b.line_number, m)),
    }
}

/// The outcome of each block in `bs`, in order.
pub open spec fn block_outcomes(bs: Seq<BlockView>) -> Seq<Result<Node, Seq<char>>>
    decreases bs,
{
    if bs.len() == 0 {
        seq![]
    } else {
        seq![block_outcome(bs[0])] + block_outcomes(bs.subrange(1, bs.len() as int))
    }
}

proof fn lemma_join_push(ws: Seq<Seq<char>>, w: Seq<char>)
    requires
        ws.len() >= 1,
    ensures
        join_words(ws.push(w)) == join_words(ws) + seq![' '] + w,
    decreases ws.len(),
{
    let v = ws.push(w);
    if ws.len() == 1 {
        assert(v.subrange(1, v.len() as int) =~= seq![w]);
        assert(join_words(seq![w]) == w);
        assert(join_words(v) =~= join_words(ws) + seq![' '] + w);
    } else {
        assert(v.subrange(1, v.len() as int) =~= ws.subrange(1, ws.len() as int).push(w));
        lemma_join_push(ws.subrange(1, ws.len() as int), w);
        assert(join_words(v) =~= join_words(ws) + seq![' '] + w);
    }
}

fn trim_end_exec(s: &[char]) -> (r: Vec<char>)
    ensures
        r@ == trim_end(s@),
{
    let mut j = s.len();
    proof {
        assert(s@.subrange(0, s@.len() as int) =~= s@);
    }
    while j > 0 && space_char(s[j - 1])
        invariant
            j <= s@.len(),
            trim_end(s@.subrange(0, j as int)) == trim_end(s@),
        decreases j,
    {
        proof {
            assert(s@.subrange(0, j as int).drop_last() =~= s@.subrange(0, j - 1));
        }
        j = j - 1;
    }
    proof {
        assert(s@.subrange(0, s@.len() as int) =~= s@);
    }
    crate::chars::slice_chars(s, 0, j)
}

/// Skips whitespace, then takes a name that is not a keyword.
fn next_name(l: &mut Lexer) -> (r: Option<String>)
    requires
        old(l).wf(),
        !old(l)@.eob,
    ensures
        final(l).wf(),
        view_opt(r) == name_at(old(l)@.text, old(l)@.pos as int).0,
        final(l)@ == at(old(l)@, name_at(old(l)@.text, old(l)@.pos as int).1),
        old(l)@.pos <= name_at(old(l)@.text, old(l)@.pos as int).1 <= old(l)@.text.len(),
{
    proof {
        old(l).lemma_wf();
        lemma_ws_end(old(l)@.text, old(l)@.pos as int);
        crate::tokens::lemma_token_bounds(old(l)@.text, ws_end(old(l)@.text, old(l)@.pos as int));
    }
    let r = l.name();
    proof {
        let v = old(l)@;
        if v == l@ {
            assert(at(v, v.pos as int) =~= v);
        }
    }
    r
}

/// The image name at the position: the names that follow one another,
/// joined by spaces. Returns it with no expression and the layer `master`.
pub fn parse_image_specifier(l: &mut Lexer) -> (r: Result<(String, Option<String>, String), ParseError>)
    requires
        old(l).wf(),
        !old(l)@.eob,
    ensures
        final(l).wf(),
        ({
            let v = old(l)@;
            &&& r matches Ok((s, e, layer)) && s@ == image_spec(v.text, v.pos as int) && e is None
                && layer@ == "master"@
            &&& final(l)@ == at(v, image_end(v.text, v.pos as int))
        }),
{
    let ghost v = l@;
    let ghost t = v.text;
    proof {
        l.lemma_wf();
        lemma_ws_end(t, v.pos as int);
    }
    let first = next_name(l);
    let mut out: Vec<char> = Vec::new();
    match first {
        None => {
            proof {
                assert(image_words(t, v.pos as int) =~= Seq::<Seq<char>>::empty());
                assert(image_end(t, v.pos as int) == l@.pos);
                assert(image_spec(t, v.pos as int) =~= out@);
            }
        },
        Some(f) => {
            out = chars_of(f.as_str());
            let ghost mut words: Seq<Seq<char>> = seq![f@];
            proof {
                assert(words.subrange(1, 1).map_values(|w: Seq<char>| trim_end(w)) =~= Seq::<Seq<char>>::empty());
                assert(seq![words[0]] + Seq::<Seq<char>>::empty() =~= seq![f@]);
                assert(image_words(t, v.pos as int) == seq![f@] + image_words(t, l@.pos as int));
            }
            loop
                invariant
                    l.wf(),
                    !l@.eob,
                    t == v.text,
                    l@ == at(v, l@.pos as int),
                    l@.pos <= t.len(),
                    words.len() >= 1,
                    words + image_words(t, l@.pos as int) == image_words(t, v.pos as int),
                    image_end(t, l@.pos as int) == image_end(t, v.pos as int),
                    out@ == join_words(seq![words[0]] + words.subrange(1, words.len() as int).map_values(|w: Seq<char>| trim_end(w))),
                ensures
                    l.wf(),
                    out@ == image_spec(t, v.pos as int),
                    l@ == at(v, image_end(t, v.pos as int)),
                decreases t.len() - l@.pos,
            {
                let ghost before = l@.pos as int;
                proof {
                    l.lemma_wf();
                    lemma_ws_end(t, before);
                }
                let n = next_name(l);
                match n {
                    Some(x) => {
                        let tx = trim_end_exec(&chars_of(x.as_str()));
                        proof {
                            let old_list = seq![words[0]] + words.subrange(1, words.len() as int).map_values(|w: Seq<char>| trim_end(w));
                            let nw = words.push(x@);
                            assert(seq![nw[0]] + nw.subrange(1, nw.len() as int).map_values(|w: Seq<char>| trim_end(w))
                                =~= old_list.push(trim_end(x@)));
                            lemma_join_push(old_list, trim_end(x@));
                            assert(words + image_words(t, before) =~= nw + image_words(t, l@.pos as int));
                            words = nw;
                        }
                        out.push(' ');
                        append_chars(&mut out, &tx);
                    },
                    None => {
                        proof {
                            assert(image_end(t, before) == l@.pos);
                            assert(image_words(t, before) =~= Seq::<Seq<char>>::empty());
                            assert(words =~= image_words(t, v.pos as int));
                            assert(image_spec(t, v.pos as int) == out@);
                            assert(l@ == at(v, image_end(t, v.pos as int)));
                        }
                        break;
                    },
                }
            }
        },
    }
    Ok((string_of(&out), None, string_of(&chars_of("master"))))
}

/// `e` is an error on the line of the lexer state `v`, with message `m`.
pub open spec fn err_on_line(e: ParseError, v: LexerView, m: Seq<char>) -> bool {
    &&& e.filename@ == v.filename
    &&& e.line_number == v.line_number
    &&& e.message@ == m
}

fn fail(l: &Lexer, msg: &str) -> (e: ParseError)
    ensures
        err_on_line(e, l@, msg@),
{
    l.error_here(msg)
}

/// The audio kind at the position: `music` or `sound`.
pub fn parse_audio_specifier(l: &mut Lexer) -> (r: Result<String, ParseError>)
    requires
        old(l).wf(),
        !old(l)@.eob,
    ensures
        final(l).wf(),
        ({
            let v = old(l)@;
            &&& final(l)@ == at(v, name_at(v.text, v.pos as int).1)
            &&& match audio_kind(v.text, v.pos as int) {
                Some((k, _)) => r matches Ok(s) && s@ == k,
                None => r matches Err(e) && err_on_line(e, v, kind_message()),
            }
        }),
{
    let n = next_name(l);
    match n {
        Some(k) => {
            let kc = chars_of(k.as_str());
            if chars_eq(&kc, &chars_of("music")) || chars_eq(&kc, &chars_of("sound")) {
                return Ok(k);
            }
            Err(fail(l, "Play or sound is required"))
        },
        None => Err(fail(l, "Play or sound is required")),
    }
}

fn remove_quotes_exec(s: &[char]) -> (r: Vec<char>)
    ensures
        r@ == remove_quotes(s@),
{
    let mut r: Vec<char> = Vec::new();
    let mut i: usize = 0;
    while i < s.len()
        invariant
            i <= s@.len(),
            r@ == remove_quotes(s@.subrange(0, i as int)),
        decreases s@.len() - i,
    {
        proof {
            assert(s@.subrange(0, i + 1).drop_last() =~= s@.subrange(0, i as int));
        }
        if s[i] != '"' {
            r.push(s[i]);
        }
        i = i + 1;
    }
    proof {
        assert(s@.subrange(0, s@.len() as int) =~= s@);
    }
    r
}

/// The quoted audio file name at the position, without its quotes.
pub fn parse_audio_filename(l: &mut Lexer) -> (r: Result<String, ParseError>)
    requires
        old(l).wf(),
        !old(l)@.eob,
    ensures
        final(l).wf(),
        ({
            let v = old(l)@;
            match audio_file(v.text, v.pos as int) {
                Some((f, e)) => r matches Ok(s) && s@ == f && final(l)@ == at(v, e),
                None => r matches Err(e) && err_on_line(e, v, file_message())
                    && final(l)@ == at(v, ws_end(v.text, v.pos as int)),
            }
        }),
{
    match l.audio_filename() {
        Some(f) => Ok(string_of(&remove_quotes_exec(&chars_of(f.as_str())))),
        None => Err(fail(l, "provide mp3, ogg or wav file")),
    }
}

/// `s` without leading whitespace.
pub open spec fn trim_start(s: Seq<char>) -> Seq<char>
    decreases s.len(),
{
    if s.len() > 0 && is_space(s[0]) {
        trim_start(s.subrange(1, s.len() as int))
    } else {
        s
    }
}

/// `s` without leading or trailing whitespace.
pub open spec fn trim(s: Seq<char>) -> Seq<char> {
    trim_start(trim_end(s))
}

/// The pieces of `s` between commas; at least one, possibly empty.
pub open spec fn split_commas(s: Seq<char>) -> Seq<Seq<char>>
    decreases s.len(),
{
    if s.len() == 0 {
        seq![seq![]]
    } else {
        let r = split_commas(s.drop_last());
        if s.last() == ',' {
            r.push(seq![])
        } else {
            r.update(r.len() - 1, r.last().push(s.last()))
        }
    }
}

proof fn lemma_split_nonempty(s: Seq<char>)
    ensures
        split_commas(s).len() >= 1,
    decreases s.len(),
{
    if s.len() > 0 {
        lemma_split_nonempty(s.drop_last());
    }
}

fn trim_exec(s: &[char]) -> (r: Vec<char>)
    ensures
        r@ == trim(s@),
{
    let e = trim_end_exec(s);
    let mut i: usize = 0;
    proof {
        assert(e@.subrange(0, e@.len() as int) =~= e@);
    }
    while i < e.len() && space_char(e[i])
        invariant
            i <= e@.len(),
            trim_start(e@.subrange(i as int, e@.len() as int)) == trim_start(e@),
        decreases e@.len() - i,
    {
        proof {
            let a = e@.subrange(i as int, e@.len() as int);
            assert(a.subrange(1, a.len() as int) =~= e@.subrange(i + 1, e@.len() as int));
        }
        i = i + 1;
    }
    proof {
        assert(e@.subrange(0, e@.len() as int) =~= e@);
    }
    crate::chars::slice_chars(&e, i, e.len())
}

/// The comma-separated expressions of `input`, each without surrounding
/// whitespace.
pub fn parse_simple_expression_list(input: &str) -> (r: Result<Vec<String>, ParseError>)
    ensures
        r matches Ok(v) && v@.len() == split_commas(input@).len()
            && forall|i: int| 0 <= i < v@.len() ==> (#[trigger] v@[i])@ == trim(split_commas(input@)[i]),
{
    let s = chars_of(input);
    let mut pieces: Vec<Vec<char>> = Vec::new();
    pieces.push(Vec::new());
    let mut i: usize = 0;
    proof {
        assert(s@.subrange(0, 0) =~= Seq::<char>::empty());
    }
    while i < s.len()
        invariant
            i <= s@.len(),
            pieces@.len() == split_commas(s@.subrange(0, i as int)).len(),
            pieces@.len() >= 1,
            forall|j: int| 0 <= j < pieces@.len() ==> (#[trigger] pieces@[j])@ == split_commas(s@.subrange(0, i as int))[j],
        decreases s@.len() - i,
    {
        proof {
            assert(s@.subrange(0, i + 1).drop_last() =~= s@.subrange(0, i as int));
            lemma_split_nonempty(s@.subrange(0, i as int));
        }
        if s[i] == ',' {
            pieces.push(Vec::new());
        } else {
            let k = pieces.len() - 1;
            let mut last = pieces.pop().unwrap();
            last.push(s[i]);
            pieces.push(last);
            proof {
                let r = split_commas(s@.subrange(0, i as int));
                let nr = split_commas(s@.subrange(0, i + 1));
                assert(nr == r.update(r.len() - 1, r.last().push(s@[i as int])));
                assert forall|j: int| 0 <= j < pieces@.len() implies (#[trigger] pieces@[j])@ == nr[j] by {
                    if j < k {
                    }
                }
            }
        }
        i = i + 1;
    }
    proof {
        assert(s@.subrange(0, s@.len() as int) =~= s@);
    }
    let mut out: Vec<String> = Vec::new();
    let mut j: usize = 0;
    while j < pieces.len()
        invariant
            j <= pieces@.len(),
            pieces@.len() == split_commas(input@).len(),
            forall|m: int| 0 <= m < pieces@.len() ==> (#[trigger] pieces@[m])@ == split_commas(input@)[m],
            out@.len() == j,
            forall|m: int| 0 <= m < j ==> (#[trigger] out@[m])@ == trim(split_commas(input@)[m]),
        decreases pieces@.len() - j,
    {
        let t = trim_exec(&pieces[j]);
        out.push(string_of(&t));
        j = j + 1;
    }
    Ok(out)
}

/// The value of `s`: an optional sign and digits; `None` if it does not fit
/// in an `i64`.
fn integer_of(s: &[char]) -> (r: Option<i64>)
    requires
        s@.len() > 0,
        forall|i: int| (if s@[0] == '+' || s@[0] == '-' { 1int } else { 0int }) <= i < s@.len()
            ==> crate::chars::is_digit(#[trigger] s@[i]),
    ensures
        match r {
            Some(x) => fits_i64(integer_value(s@)) && x == integer_value(s@),
            None => !fits_i64(integer_value(s@)),
        },
{
    let neg = s[0] == '-';
    let start: usize = if s[0] == '+' || s[0] == '-' { 1 } else { 0 };
    let ghost d = s@.subrange(start as int, s@.len() as int);
    let cap: u64 = 0x8000_0000_0000_0000;
    let mut acc: u64 = 0;
    let mut i: usize = start;
    proof {
        assert(s@.subrange(start as int, start as int) =~= Seq::<char>::empty());
    }
    while i < s.len()
        invariant
            start <= i <= s@.len(),
            cap == 0x8000_0000_0000_0000u64,
            forall|k: int| start <= k < s@.len() ==> crate::chars::is_digit(#[trigger] s@[k]),
            digits_value(s@.subrange(start as int, i as int)) <= cap ==> acc == digits_value(s@.subrange(start as int, i as int)),
            digits_value(s@.subrange(start as int, i as int)) > cap ==> acc == cap + 1,
        decreases s@.len() - i,
    {
        proof {
            assert(s@.subrange(start as int, i + 1).drop_last() =~= s@.subrange(start as int, i as int));
        }
        let dg = (s[i] as u32 - '0' as u32) as u64;
        if acc > cap {
            acc = cap + 1;
        } else {
            let next = (acc as u128) * 10 + (dg as u128);
            if next > cap as u128 {
                acc = cap + 1;
            } else {
                acc = next as u64;
            }
        }
        i = i + 1;
    }
    proof {
        assert(s@.subrange(start as int, s@.len() as int) == d);
        if start == 1 {
            assert(d == s@.subrange(1, s@.len() as int));
        } else {
            assert(d =~= s@);
        }
    }
    if neg {
        if acc > cap {
            None
        } else if acc == cap {
            Some(i64::MIN)
        } else {
            Some(-(acc as i64))
        }
    } else {
        if acc >= cap {
            None
        } else {
            Some(acc as i64)
        }
    }
}

/// `w` is `v` at another position of the same line.
pub open spec fn same_line(v: LexerView, w: LexerView) -> bool {
    w == at(v, w.pos as int)
}

/// `w` is `v` moved on to the next block, or past the last one.
pub open spec fn moved_on(v: LexerView, w: LexerView) -> bool {
    &&& w == at(advanced(v), w.pos as int)
    &&& v.next < v.blocks.len() ==> w.pos == 0
}

/// A statement read from `v` as `res` says: on success the statement
/// `r` holds it and the lexer `w` moved on to the next block; on failure
/// the error is on the line of `v` and the lexer stayed on that line.
pub open spec fn stmt_post(v: LexerView, res: Result<Node, Seq<char>>, r: Result<AST, ParseError>, w: LexerView) -> bool {
    match res {
        Ok(n) => r matches Ok(a) && view_ast(a) == n && moved_on(v, w),
        Err(m) => r matches Err(e) && err_on_line(e, v, m) && same_line(v, w),
    }
}

proof fn lemma_post_at(v: LexerView, p: int, res: Result<Node, Seq<char>>, r: Result<AST, ParseError>, w: LexerView)
    requires
        stmt_post(at(v, p), res, r, w),
    ensures
        stmt_post(v, res, r, w),
{
    let u = at(v, p);
    assert(at(u, w.pos as int) == at(v, w.pos as int));
    if v.next < v.blocks.len() {
        assert(advanced(u) == advanced(v));
    } else {
        assert(at(advanced(u), w.pos as int) == at(advanced(v), w.pos as int));
    }
}

proof fn lemma_moved_on(v: LexerView, q: int)
    requires
        0 <= q,
    ensures
        moved_on(v, advanced(at(v, q))),
{
    let u = at(v, q);
    if v.next < v.blocks.len() {
        assert(advanced(u) == advanced(v));
        assert(at(advanced(v), 0) == advanced(v));
    } else {
        assert(advanced(u) == at(advanced(v), q));
    }
}

proof fn lemma_image_end(t: Seq<char>, p: int)
    requires
        0 <= p <= t.len(),
    ensures
        p <= image_end(t, p) <= t.len(),
    decreases t.len() - p,
{
    lemma_ws_end(t, p);
    crate::tokens::lemma_token_bounds(t, ws_end(t, p));
    let (n, e) = name_at(t, p);
    if n is Some && p < e <= t.len() {
        lemma_image_end(t, e);
    }
}

proof fn lemma_image_ws(t: Seq<char>, p: int)
    requires
        0 <= p <= t.len(),
    ensures
        image_spec(t, ws_end(t, p)) == image_spec(t, p),
{
    lemma_ws_end(t, p);
    let q = ws_end(t, p);
    crate::tokens::lemma_token_bounds(t, q);
    assert(image_words(t, q) == image_words(t, p));
}

/// Builds a string from a literal.
fn text_of(s: &str) -> (r: String)
    ensures
        r@ == s@,
{
    string_of(&chars_of(s))
}

fn parse_return(l: &mut Lexer, loc: usize) -> (r: Result<AST, ParseError>)
    requires
        old(l).wf(),
        !old(l)@.eob,
        loc == old(l)@.line_number,
    ensures
        final(l).wf(),
        stmt_post(old(l)@, return_stmt(old(l)@.text, old(l)@.pos as int, old(l)@.subblocks.len() > 0, loc as nat), r, final(l)@),
{
    let ghost v = l@;
    if let Err(e) = l.expect_noblock("return statement") {
        return Err(e);
    }
    let rest = l.rest();
    let ghost q = l@.pos as int;
    l.advance();
    proof {
        lemma_moved_on(v, q);
    }
    if rest.as_str().unicode_len() == 0 {
        Ok(AST::Return(loc, None))
    } else {
        Ok(AST::Return(loc, Some(rest)))
    }
}

fn parse_jump(l: &mut Lexer, loc: usize) -> (r: Result<AST, ParseError>)
    requires
        old(l).wf(),
        !old(l)@.eob,
        loc == old(l)@.line_number,
    ensures
        final(l).wf(),
        stmt_post(old(l)@, jump_stmt(old(l)@.text, old(l)@.pos as int, old(l)@.subblocks.len() > 0, loc as nat), r, final(l)@),
{
    let ghost v = l@;
    if let Err(e) = l.expect_noblock("jump statement") {
        return Err(e);
    }
    let target = next_name(l);
    proof {
        l.lemma_wf();
    }
    if let Err(e) = l.expect_eol() {
        return Err(e);
    }
    let ghost q = l@.pos as int;
    l.advance();
    proof {
        lemma_moved_on(v, q);
    }
    match target {
        Some(t) => Ok(AST::Jump(loc, t, false)),
        None => Ok(AST::Jump(loc, String::new(), false)),
    }
}

fn parse_scene(l: &mut Lexer, loc: usize) -> (r: Result<AST, ParseError>)
    requires
        old(l).wf(),
        !old(l)@.eob,
        loc == old(l)@.line_number,
    ensures
        final(l).wf(),
        stmt_post(old(l)@, scene_stmt(old(l)@.text, old(l)@.pos as int, old(l)@.subblocks.len() > 0, loc as nat), r, final(l)@),
{
    let ghost v = l@;
    proof {
        l.lemma_wf();
        lemma_ws_end(v.text, v.pos as int);
        lemma_image_ws(v.text, v.pos as int);
    }
    if let Err(e) = l.expect_noblock("scene statement") {
        return Err(e);
    }
    if l.eol() {
        let ghost q = l@.pos as int;
        l.advance();
        proof {
            lemma_moved_on(v, q);
        }
        return Ok(AST::Scene(loc, None, text_of("master")));
    }
    let spec = parse_image_specifier(l);
    match spec {
        Ok((name, _, _)) => {
            let ghost q = l@.pos as int;
            l.advance();
            proof {
                lemma_moved_on(v, q);
            }
            Ok(AST::Scene(loc, Some(name), text_of("master")))
        },
        Err(e) => Err(e),
    }
}

fn parse_game_mechanic(l: &mut Lexer, loc: usize) -> (r: Result<AST, ParseError>)
    requires
        old(l).wf(),
        !old(l)@.eob,
        loc == old(l)@.line_number,
    ensures
        final(l).wf(),
        stmt_post(old(l)@, game_mechanic_stmt(old(l)@.text, old(l)@.pos as int, old(l)@.subblocks.len() > 0, loc as nat), r, final(l)@),
{
    let ghost v = l@;
    let argument = l.string();
    match argument {
        None => Err(fail(l, "Expected a string after 'game_mechanic' keyword.")),
        Some(a) => {
            if let Err(e) = l.expect_eol() {
                return Err(e);
            }
            if let Err(e) = l.expect_noblock("game_mechanic statement") {
                return Err(e);
            }
            let ghost q = l@.pos as int;
            l.advance();
            proof {
                lemma_moved_on(v, q);
            }
            Ok(AST::GameMechanic(loc, a))
        },
    }
}

fn parse_llm_generate(l: &mut Lexer, loc: usize) -> (r: Result<AST, ParseError>)
    requires
        old(l).wf(),
        !old(l)@.eob,
        loc == old(l)@.line_number,
    ensures
        final(l).wf(),
        stmt_post(old(l)@, llm_generate_stmt(old(l)@.text, old(l)@.pos as int, old(l)@.subblocks.len() > 0, loc as nat), r, final(l)@),
{
    let ghost v = l@;
    let ghost t = v.text;
    proof {
        l.lemma_wf();
        lemma_ws_end(t, v.pos as int);
    }
    match l.word() {
        None => Err(fail(l, "Expected word after 'llm_generate' keyword.")),
        Some(who) => {
            let ghost q = ws_end(t, v.pos as int);
            let ghost e = word_end(t, q);
            proof {
                lemma_ws_end(t, e);
            }
            let prompt = l.string();
            if let Err(e) = l.expect_eol() {
                return Err(e);
            }
            if let Err(e) = l.expect_noblock("llm_generate statement") {
                return Err(e);
            }
            let ghost q = l@.pos as int;
            l.advance();
            proof {
                lemma_moved_on(v, q);
            }
            Ok(AST::LLMGenerate(loc, who, prompt))
        },
    }
}

fn parse_show_hide(l: &mut Lexer, loc: usize, show: bool) -> (r: Result<AST, ParseError>)
    requires
        old(l).wf(),
        !old(l)@.eob,
        loc == old(l)@.line_number,
    ensures
        final(l).wf(),
        stmt_post(old(l)@, show_hide_stmt(old(l)@.text, old(l)@.pos as int, old(l)@.subblocks.len() > 0, loc as nat, show), r, final(l)@),
{
    let ghost v = l@;
    proof {
        l.lemma_wf();
        lemma_image_end(v.text, v.pos as int);
        lemma_ws_end(v.text, image_end(v.text, v.pos as int));
    }
    let imspec = match parse_image_specifier(l) {
        Ok((name, _, _)) => name,
        Err(e) => {
            return Err(e);
        },
    };
    if let Err(e) = l.expect_eol() {
        return Err(e);
    }
    let stmt = if show { "show statement" } else { "hide statement" };
    if let Err(e) = l.expect_noblock(stmt) {
        return Err(e);
    }
    let ghost q = l@.pos as int;
    l.advance();
    proof {
        lemma_moved_on(v, q);
    }
    if show {
        Ok(AST::Show(loc, imspec))
    } else {
        Ok(AST::Hide(loc, imspec))
    }
}

fn parse_play(l: &mut Lexer, loc: usize) -> (r: Result<AST, ParseError>)
    requires
        old(l).wf(),
        !old(l)@.eob,
        loc == old(l)@.line_number,
    ensures
        final(l).wf(),
        stmt_post(old(l)@, play_stmt(old(l)@.text, old(l)@.pos as int, loc as nat), r, final(l)@),
{
    let ghost v = l@;
    let kind = match parse_audio_specifier(l) {
        Ok(k) => k,
        Err(e) => {
            return Err(e);
        },
    };
    let filename = match parse_audio_filename(l) {
        Ok(f) => f,
        Err(e) => {
            return Err(e);
        },
    };
    if let Err(e) = l.expect_eol() {
        return Err(e);
    }
    let ghost q = l@.pos as int;
    l.advance();
    proof {
        lemma_moved_on(v, q);
    }
    Ok(AST::Play(loc, kind, filename))
}

fn parse_stop(l: &mut Lexer, loc: usize) -> (r: Result<AST, ParseError>)
    requires
        old(l).wf(),
        !old(l)@.eob,
        loc == old(l)@.line_number,
    ensures
        final(l).wf(),
        stmt_post(old(l)@, stop_stmt(old(l)@.text, old(l)@.pos as int, loc as nat), r, final(l)@),
{
    let ghost v = l@;
    let kind = match parse_audio_specifier(l) {
        Ok(k) => k,
        Err(e) => {
            return Err(e);
        },
    };
    proof {
        l.lemma_wf();
        lemma_ws_end(v.text, l@.pos as int);
        let q = ws_end(v.text, l@.pos as int);
        if fade_end(v.text, q) > q {
            lemma_ws_end(v.text, fade_end(v.text, q));
        }
    }
    let (effect, length) = l.stop_arguments();
    if let Err(e) = l.expect_eol() {
        return Err(e);
    }
    let ghost q = l@.pos as int;
    l.advance();
    proof {
        lemma_moved_on(v, q);
    }
    Ok(AST::Stop(loc, kind, effect, length))
}

fn parse_define(l: &mut Lexer, loc: usize) -> (r: Result<AST, ParseError>)
    requires
        old(l).wf(),
        !old(l)@.eob,
        loc == old(l)@.line_number,
    ensures
        final(l).wf(),
        stmt_post(old(l)@, Ok(Node::Define(loc as nat, old(l)@.text.subrange(ws_end(old(l)@.text, old(l)@.pos as int), old(l)@.text.len() as int))), r, final(l)@),
{
    let ghost v = l@;
    let definition = l.rest();
    if let Err(e) = l.expect_eol() {
        return Err(e);
    }
    let ghost q = l@.pos as int;
    l.advance();
    proof {
        lemma_moved_on(v, q);
    }
    Ok(AST::Define(loc, definition))
}

/// The texts of the strings.
pub open spec fn texts(v: Seq<String>) -> Seq<Seq<char>> {
    v.map_values(|s: String| s@)
}

/// The lexer state `w` holds block `b`, at its start.
pub open spec fn loaded(w: LexerView, b: BlockView) -> bool {
    &&& w.text == b.text
    &&& w.pos == 0
    &&& w.subblocks == b.subblocks
    &&& w.line_number == b.line_number
    &&& w.filename == b.filename
}

proof fn lemma_outcomes_push(s: Seq<BlockView>, b: BlockView)
    ensures
        block_outcomes(s.push(b)) == block_outcomes(s).push(block_outcome(b)),
    decreases s.len(),
{
    let w = s.push(b);
    if s.len() == 0 {
        assert(w.subrange(1, 1) =~= Seq::<BlockView>::empty());
        assert(w[0] == b);
        assert(block_outcomes(w.subrange(1, 1)) =~= Seq::<Result<Node, Seq<char>>>::empty());
        assert(block_outcomes(s) =~= Seq::<Result<Node, Seq<char>>>::empty());
        assert(block_outcomes(w) =~= block_outcomes(s).push(block_outcome(b)));
    } else {
        assert(w.subrange(1, w.len() as int) =~= s.subrange(1, s.len() as int).push(b));
        lemma_outcomes_push(s.subrange(1, s.len() as int), b);
        assert(block_outcomes(w) =~= block_outcomes(s).push(block_outcome(b)));
    }
}

proof fn lemma_digits(t: Seq<char>, a: int)
    requires
        0 <= a <= t.len(),
    ensures
        a <= crate::tokens::digits_end(t, a) <= t.len(),
        forall|k: int| a <= k < crate::tokens::digits_end(t, a) ==> crate::chars::is_digit(#[trigger] t[k]),
    decreases t.len() - a,
{
    if a < t.len() && crate::chars::is_digit(t[a]) {
        lemma_digits(t, a + 1);
    }
}

/// Reads the block of the current line with a cursor of its own.
fn parse_body(l: &mut Lexer, init: bool) -> (r: (Vec<AST>, Vec<String>))
    requires
        old(l).wf(),
    ensures
        final(l)@ == old(l)@,
        final(l).wf(),
        view_asts(r.0@) == oks(block_outcomes(old(l)@.subblocks)),
        texts(r.1@) == errs(block_outcomes(old(l)@.subblocks)),
    decreases old(l)@.subblocks, 1int,
{
    let mut sub = l.subblock_lexer(init);
    proof {
        assert(sub@.blocks.subrange(0, sub@.blocks.len() as int) =~= sub@.blocks);
    }
    parse_block(&mut sub)
}

fn parse_label(l: &mut Lexer, loc: usize) -> (r: Result<AST, ParseError>)
    requires
        old(l).wf(),
        !old(l)@.eob,
        loc == old(l)@.line_number,
    ensures
        final(l).wf(),
        stmt_post(old(l)@, label_stmt(old(l)@.text, old(l)@.pos as int, loc as nat, body_of(block_outcomes(old(l)@.subblocks))), r, final(l)@),
    decreases old(l)@.subblocks, 2int,
{
    let ghost v = l@;
    let name = next_name(l);
    let (body, errors) = parse_body(l, false);
    proof {
        assert(errors@.len() == texts(errors@).len());
    }
    if errors.len() > 0 {
        proof {
            assert(errors@[0]@ == texts(errors@)[0]);
        }
        return Err(fail(l, errors[0].as_str()));
    }
    let ghost q = l@.pos as int;
    l.advance();
    proof {
        lemma_moved_on(v, q);
    }
    let n = match name {
        Some(n) => n,
        None => String::new(),
    };
    Ok(AST::Label(loc, n, body, None))
}

fn parse_init(l: &mut Lexer, loc: usize) -> (r: Result<AST, ParseError>)
    requires
        old(l).wf(),
        !old(l)@.eob,
        loc == old(l)@.line_number,
    ensures
        final(l).wf(),
        stmt_post(old(l)@, init_stmt(old(l)@.text, old(l)@.pos as int, old(l)@.subblocks.len() > 0, loc as nat, body_of(block_outcomes(old(l)@.subblocks))), r, final(l)@),
    decreases old(l)@.subblocks, 2int,
{
    let ghost v = l@;
    let ghost t = v.text;
    proof {
        l.lemma_wf();
        lemma_ws_end(t, v.pos as int);
        let q = ws_end(t, v.pos as int);
        let a = crate::tokens::sign_end(t, q);
        lemma_digits(t, a);
        lemma_ws_end(t, integer_end(t, q));
        reveal_strlit("expected ':' not found");
        reveal_strlit("expected '");
        reveal_strlit(":");
        reveal_strlit("' not found");
        assert(require_message(":"@) =~= "expected ':' not found"@);
    }
    let prio_text = l.integer();
    proof {
        lemma_ws_end(t, l@.pos as int);
        let q3 = ws_end(t, l@.pos as int);
        if q3 < t.len() {
            lemma_ws_end(t, q3 + 1);
        }
    }
    if !l.match_char(':') {
        return Err(fail(l, "expected ':' not found"));
    }
    if let Err(e) = l.expect_eol() {
        return Err(e);
    }
    if let Err(e) = l.expect_block("init statement") {
        return Err(e);
    }
    let prio: i64 = match prio_text {
        None => 0,
        Some(s) => {
            let cs = chars_of(s.as_str());
            proof {
                let q = ws_end(t, v.pos as int);
                assert(cs@ == t.subrange(q, integer_end(t, q)));
            }
            match integer_of(&cs) {
                Some(x) => x,
                None => {
                    return Err(fail(l, "init priority is out of range"));
                },
            }
        },
    };
    let (body, errors) = parse_body(l, true);
    proof {
        assert(errors@.len() == texts(errors@).len());
    }
    if errors.len() > 0 {
        proof {
            assert(errors@[0]@ == texts(errors@)[0]);
        }
        return Err(fail(l, errors[0].as_str()));
    }
    let ghost q = l@.pos as int;
    l.advance();
    proof {
        lemma_moved_on(v, q);
    }
    Ok(AST::Init(loc, body, prio))
}

/// Reads the statements of the blocks from the cursor's next block on,
/// skipping each line whose statement fails and collecting its error.
pub fn parse_block(l: &mut Lexer) -> (r: (Vec<AST>, Vec<String>))
    requires
        old(l).wf(),
    ensures
        final(l).wf(),
        final(l)@.eob,
        ({
            let v = old(l)@;
            let outs = block_outcomes(v.blocks.subrange(v.next as int, v.blocks.len() as int));
            &&& view_asts(r.0@) == oks(outs)
            &&& texts(r.1@) == errs(outs)
        }),
    decreases old(l)@.blocks, 0int,
{
    let ghost v = l@;
    let ghost bs = v.blocks;
    let ghost s0 = v.next as int;
    proof {
        l.lemma_wf();
    }
    l.advance();
    let mut rv: Vec<AST> = Vec::new();
    let mut errors: Vec<String> = Vec::new();
    proof {
        l.lemma_wf();
        assert(bs.subrange(s0, s0) =~= Seq::<BlockView>::empty());
        assert(view_asts(rv@) =~= Seq::<Node>::empty());
        assert(texts(errors@) =~= Seq::<Seq<char>>::empty());
        if l@.eob {
            assert(l@.next == bs.len());
        }
    }
    while !l.eob()
        invariant
            l.wf(),
            l@.blocks == bs,
            bs == v.blocks,
            v == old(l)@,
            s0 == v.next,
            s0 <= l@.next <= bs.len(),
            !l@.eob ==> l@.next >= s0 + 1 && loaded(l@, bs[l@.next - 1]),
            l@.eob ==> l@.next == bs.len(),
            view_asts(rv@) == oks(block_outcomes(bs.subrange(s0, if l@.eob { bs.len() as int } else { l@.next - 1 }))),
            texts(errors@) == errs(block_outcomes(bs.subrange(s0, if l@.eob { bs.len() as int } else { l@.next - 1 }))),
        decreases bs.len() - l@.next + if l@.eob { 0int } else { 1int },
    {
        let ghost w = l@;
        let ghost i = w.next - 1;
        proof {
            l.lemma_wf();
            assert(decreases_to!(bs => bs[i]));
            assert(decreases_to!(bs[i] => bs[i].subblocks));
            assert(decreases_to!(bs => bs[i].subblocks));
            lemma_outcomes_push(bs.subrange(s0, i), bs[i]);
            assert(bs.subrange(s0, i).push(bs[i]) =~= bs.subrange(s0, i + 1));
        }
        let ghost prev = block_outcomes(bs.subrange(s0, i));
        proof {
            assert(l@.subblocks == bs[i].subblocks);
            assert(decreases_to!(v.blocks, 0int => l@.subblocks, 3int));
        }
        match parse_statement(l) {
            Ok(stmt) => {
                proof {
                    lemma_view_asts_push(rv@, stmt);
                    assert(prev.push(block_outcome(bs[i])).drop_last() =~= prev);
                }
                rv.push(stmt);
            },
            Err(e) => {
                let msg = e.to_string();
                proof {
                    assert(prev.push(block_outcome(bs[i])).drop_last() =~= prev);
                    assert(texts(errors@.push(msg)) =~= texts(errors@).push(msg@));
                    l.lemma_wf();
                    lemma_moved_on(w, l@.pos as int);
                }
                errors.push(msg);
                l.advance();
            },
        }
        proof {
            l.lemma_wf();
        }
    }
    proof {
        assert(bs.subrange(s0, bs.len() as int) == v.blocks.subrange(v.next as int, v.blocks.len() as int));
    }
    (rv, errors)
}

fn parse_say(l: &mut Lexer, loc: usize) -> (r: Result<AST, ParseError>)
    requires
        old(l).wf(),
        !old(l)@.eob,
        loc == old(l)@.line_number,
        ws_end(old(l)@.text, old(l)@.pos as int) == old(l)@.pos,
    ensures
        final(l).wf(),
        stmt_post(old(l)@, say_stmt(old(l)@.text, old(l)@.pos as int, old(l)@.subblocks.len() > 0, loc as nat), r, final(l)@),
{
    let ghost v = l@;
    let ghost t = v.text;
    let ghost q = v.pos as int;
    proof {
        l.lemma_wf();
        crate::tokens::lemma_token_bounds(t, q);
        lemma_ws_end(t, word_end(t, q));
    }
    let state = l.checkpoint();
    let state2 = l.checkpoint();
    if let Some(w) = l.word() {
        if let Some(what) = l.string() {
            let mut m = chars_of(w.as_str());
            append_chars(&mut m, &chars_of(" statement"));
            if let Err(e) = l.expect_noblock(string_of(&m).as_str()) {
                return Err(e);
            }
            let ghost pos_c = l@.pos as int;
            l.advance();
            proof {
                lemma_moved_on(v, pos_c);
            }
            return Ok(AST::Say(loc, Some(w), what));
        }
    }
    l.revert(state);
    proof {
        assert(l@ == v);
    }
    if let Some(what) = l.string() {
        proof {
            lemma_ws_end(t, l@.pos as int);
        }
        if l.eol() {
            if let Err(e) = l.expect_noblock("say statement") {
                return Err(e);
            }
            let ghost pos_c = l@.pos as int;
            l.advance();
            proof {
                lemma_moved_on(v, pos_c);
            }
            return Ok(AST::Say(loc, None, what));
        }
    }
    l.revert(state2);
    proof {
        assert(l@ == v);
    }
    if let Ok(Some(x)) = l.simple_expression() {
        proof {
            lemma_ws_end(t, l@.pos as int);
        }
        if let Some(what) = l.string() {
            proof {
                lemma_ws_end(t, l@.pos as int);
            }
            if let Err(e) = l.expect_eol() {
                return Err(e);
            }
            if let Err(e) = l.expect_noblock("say statement") {
                return Err(e);
            }
            let ghost pos_c = l@.pos as int;
            l.advance();
            proof {
                lemma_moved_on(v, pos_c);
            }
            return Ok(AST::Say(loc, Some(x), what));
        }
    }
    Err(fail(l, "expected statement."))
}

/// Reads one statement from the current line. On success the cursor moves
/// on to the next block; on failure it stays on the line, and the error
/// names the line.
pub fn parse_statement(l: &mut Lexer) -> (r: Result<AST, ParseError>)
    requires
        old(l).wf(),
        !old(l)@.eob,
    ensures
        final(l).wf(),
        ({
            let v = old(l)@;
            let res = statement(v.text, v.pos as int, v.subblocks.len() > 0, v.line_number,
                body_of(block_outcomes(v.subblocks)));
            stmt_post(v, res, r, final(l)@)
        }),
    decreases old(l)@.subblocks, 3int,
{
    let ghost v = l@;
    let ghost t = v.text;
    let ghost p = ws_end(t, v.pos as int);
    proof {
        l.lemma_wf();
        lemma_ws_end(t, v.pos as int);
    }
    let loc = l.get_location();
    if l.keyword("return").is_some() {
        let r = parse_return(l, loc);
        proof { lemma_post_at(v, after_kw(t, p, "return"@), return_stmt(t, after_kw(t, p, "return"@), v.subblocks.len() > 0, loc as nat), r, l@); }
        return r;
    }
    if l.keyword("jump").is_some() {
        let r = parse_jump(l, loc);
        proof { lemma_post_at(v, after_kw(t, p, "jump"@), jump_stmt(t, after_kw(t, p, "jump"@), v.subblocks.len() > 0, loc as nat), r, l@); }
        return r;
    }
    if l.keyword("scene").is_some() {
        let r = parse_scene(l, loc);
        proof { lemma_post_at(v, after_kw(t, p, "scene"@), scene_stmt(t, after_kw(t, p, "scene"@), v.subblocks.len() > 0, loc as nat), r, l@); }
        return r;
    }
    if l.keyword("game_mechanic").is_some() {
        let r = parse_game_mechanic(l, loc);
        proof { lemma_post_at(v, after_kw(t, p, "game_mechanic"@), game_mechanic_stmt(t, after_kw(t, p, "game_mechanic"@), v.subblocks.len() > 0, loc as nat), r, l@); }
        return r;
    }
    if l.keyword("llm_generate").is_some() {
        let r = parse_llm_generate(l, loc);
        proof { lemma_post_at(v, after_kw(t, p, "llm_generate"@), llm_generate_stmt(t, after_kw(t, p, "llm_generate"@), v.subblocks.len() > 0, loc as nat), r, l@); }
        return r;
    }
    if l.keyword("show").is_some() {
        let r = parse_show_hide(l, loc, true);
        proof { lemma_post_at(v, after_kw(t, p, "show"@), show_hide_stmt(t, after_kw(t, p, "show"@), v.subblocks.len() > 0, loc as nat, true), r, l@); }
        return r;
    }
    if l.keyword("hide").is_some() {
        let r = parse_show_hide(l, loc, false);
        proof { lemma_post_at(v, after_kw(t, p, "hide"@), show_hide_stmt(t, after_kw(t, p, "hide"@), v.subblocks.len() > 0, loc as nat, false), r, l@); }
        return r;
    }
    if l.keyword("play").is_some() {
        let r = parse_play(l, loc);
        proof { lemma_post_at(v, after_kw(t, p, "play"@), play_stmt(t, after_kw(t, p, "play"@), loc as nat), r, l@); }
        return r;
    }
    if l.keyword("stop").is_some() {
        let r = parse_stop(l, loc);
        proof { lemma_post_at(v, after_kw(t, p, "stop"@), stop_stmt(t, after_kw(t, p, "stop"@), loc as nat), r, l@); }
        return r;
    }
    if l.keyword("label").is_some() {
        let r = parse_label(l, loc);
        proof { lemma_post_at(v, after_kw(t, p, "label"@), label_stmt(t, after_kw(t, p, "label"@), loc as nat, body_of(block_outcomes(v.subblocks))), r, l@); }
        return r;
    }
    if l.keyword("define").is_some() {
        let r = parse_define(l, loc);
        proof { lemma_post_at(v, after_kw(t, p, "define"@), Ok(Node::Define(loc as nat, t.subrange(ws_end(t, after_kw(t, p, "define"@)), t.len() as int))), r, l@); }
        return r;
    }
    if l.keyword("init").is_some() {
        let r = parse_init(l, loc);
        proof { lemma_post_at(v, after_kw(t, p, "init"@), init_stmt(t, after_kw(t, p, "init"@), v.subblocks.len() > 0, loc as nat, body_of(block_outcomes(v.subblocks))), r, l@); }
        return r;
    }
    let r = parse_say(l, loc);
    proof { lemma_post_at(v, p, say_stmt(t, p, v.subblocks.len() > 0, loc as nat), r, l@); }
    r
}

/// The statements that a `with` clause yields for `node`: the node alone,
/// as no clause is read.
pub fn parse_with(l: &mut Lexer, node: AST) -> (r: Result<Vec<AST>, ParseError>)
    ensures
        final(l)@ == old(l)@,
        r matches Ok(v) && v@ == seq![node],
{
    let mut v: Vec<AST> = Vec::new();
    v.push(node);
    proof {
        assert(v@ =~= seq![node]);
    }
    Ok(v)
}

/// The parameters of a label: named ones with their defaults, positional
/// ones, and the names that collect extra positional and keyword arguments.
pub struct ParameterInfo {
    pub parameters: Vec<(String, Option<String>)>,
    pub positional: Vec<String>,
    pub extrapos: Option<String>,
    pub extrakw: Option<String>,
}

/// The location of a statement, zero for `Error`.
pub open spec fn key(n: Node) -> nat {
    match loc_of(n) {
        Some(l) => l,
        None => 0,
    }
}

/// The statement moved one line further when it stands at or after `at`.
pub open spec fn shifted(n: Node, at: nat) -> Node {
    if key(n) >= at {
        with_loc(n, key(n) + 1)
    } else {
        n
    }
}

/// `sorted` with `n` placed after every statement whose location is not
/// greater than its own.
pub open spec fn insert_by_loc(sorted: Seq<Node>, n: Node) -> Seq<Node>
    decreases sorted.len(),
{
    if sorted.len() == 0 {
        seq![n]
    } else if key(sorted.last()) <= key(n) {
        sorted.push(n)
    } else {
        insert_by_loc(sorted.drop_last(), n).push(sorted.last())
    }
}

/// The statements sorted by location; statements with equal locations keep
/// their order.
pub open spec fn sort_by_loc(s: Seq<Node>) -> Seq<Node>
    decreases s.len(),
{
    if s.len() == 0 {
        seq![]
    } else {
        insert_by_loc(sort_by_loc(s.drop_last()), s.last())
    }
}

proof fn lemma_insert_at(s: Seq<Node>, n: Node, j: int)
    requires
        0 <= j <= s.len(),
        forall|k: int| j <= k < s.len() ==> key(#[trigger] s[k]) > key(n),
        j == 0 || key(s[j - 1]) <= key(n),
    ensures
        insert_by_loc(s, n) == s.insert(j, n),
    decreases s.len(),
{
    if s.len() == 0 {
        assert(s.insert(j, n) =~= seq![n]);
    } else if key(s.last()) <= key(n) {
        assert(j == s.len());
        assert(s.insert(j, n) =~= s.push(n));
    } else {
        let d = s.drop_last();
        assert forall|k: int| j <= k < d.len() implies key(#[trigger] d[k]) > key(n) by {
            assert(d[k] == s[k]);
        }
        if j > 0 {
            assert(d[j - 1] == s[j - 1]);
        }
        lemma_insert_at(d, n, j);
        assert(d.insert(j, n).push(s.last()) =~= s.insert(j, n));
    }
}

/// Inserts `item` into `out`, keeping it sorted by location, after the
/// statements whose location is not greater.
fn insert_sorted(out: &mut Vec<AST>, item: AST)
    requires
        !(item is Error),
        forall|k: int| 0 <= k < old(out)@.len() ==> !(#[trigger] old(out)@[k] is Error),
    ensures
        view_asts(final(out)@) == insert_by_loc(view_asts(old(out)@), view_ast(item)),
        forall|k: int| 0 <= k < final(out)@.len() ==> !(#[trigger] final(out)@[k] is Error),
{
    let k = item.index();
    let mut j = out.len();
    proof {
        crate::ast::lemma_view_asts_len(out@);
    }
    while j > 0 && out[j - 1].index() > k
        invariant
            j <= out@.len(),
            out@ == old(out)@,
            !(item is Error),
            key(view_ast(item)) == k,
            view_asts(out@).len() == out@.len(),
            forall|m: int| 0 <= m < out@.len() ==> !(#[trigger] out@[m] is Error),
            forall|m: int| j <= m < out@.len() ==> key(#[trigger] view_asts(out@)[m]) > k,
        decreases j,
    {
        proof {
            lemma_view_asts_at(out@, j - 1);
        }
        j = j - 1;
    }
    proof {
        if j > 0 {
            lemma_view_asts_at(out@, j - 1);
        }
        lemma_insert_at(view_asts(out@), view_ast(item), j as int);
        lemma_view_asts_insert(out@, j as int, item);
    }
    out.insert(j, item);
}

proof fn lemma_view_asts_at(v: Seq<AST>, i: int)
    requires
        0 <= i < v.len(),
    ensures
        view_asts(v)[i] == view_ast(v[i]),
        view_asts(v).len() == v.len(),
    decreases v.len(),
{
    crate::ast::lemma_view_asts_len(v);
    if i > 0 {
        lemma_view_asts_at(v.subrange(1, v.len() as int), i - 1);
    }
}

proof fn lemma_view_asts_insert(v: Seq<AST>, j: int, a: AST)
    requires
        0 <= j <= v.len(),
    ensures
        view_asts(v.insert(j, a)) == view_asts(v).insert(j, view_ast(a)),
{
    let w = v.insert(j, a);
    crate::ast::lemma_view_asts_len(v);
    crate::ast::lemma_view_asts_len(w);
    assert forall|k: int| 0 <= k < w.len() implies #[trigger] view_asts(w)[k] == view_asts(v).insert(j, view_ast(a))[k] by {
        lemma_view_asts_at(w, k);
        if k < j {
            lemma_view_asts_at(v, k);
        } else if k > j {
            lemma_view_asts_at(v, k - 1);
        }
    }
    assert(view_asts(w) =~= view_asts(v).insert(j, view_ast(a)));
}

/// Injects `node` into the statements: every statement at or after the
/// node's location moves one line further, and the node joins them, all
/// sorted by location with ties kept in order.
pub fn inject_node(ast: Vec<AST>, node: AST) -> (r: Vec<AST>)
    requires
        !(node is Error),
        forall|k: int| 0 <= k < ast@.len() ==> !(#[trigger] ast@[k] is Error),
        forall|k: int| 0 <= k < ast@.len() ==> key(view_ast(#[trigger] ast@[k])) < usize::MAX,
    ensures
        view_asts(r@) == sort_by_loc(
            view_asts(ast@).map_values(|n: Node| shifted(n, key(view_ast(node)))).push(view_ast(node)),
        ),
{
    let at = node.index();
    let ghost input = view_asts(ast@);
    let ghost f = |n: Node| shifted(n, at as nat);
    let n = ast.len();
    let mut src = ast;
    let mut out: Vec<AST> = Vec::new();
    let mut i: usize = 0;
    proof {
        crate::ast::lemma_view_asts_len(src@);
        assert(input.map_values(f).subrange(0, 0) =~= Seq::<Node>::empty());
        assert(view_asts(out@) =~= Seq::<Node>::empty());
    }
    while i < n
        invariant
            i <= n,
            n == input.len(),
            input.len() == view_asts(ast@).len(),
            input == view_asts(ast@),
            src@ == ast@.subrange(i as int, n as int),
            key(view_ast(node)) == at,
            f == (|n: Node| shifted(n, at as nat)),
            view_asts(out@) == sort_by_loc(input.map_values(f).subrange(0, i as int)),
            forall|k: int| 0 <= k < out@.len() ==> !(#[trigger] out@[k] is Error),
            forall|k: int| 0 <= k < ast@.len() ==> !(#[trigger] ast@[k] is Error),
            forall|k: int| 0 <= k < ast@.len() ==> key(view_ast(#[trigger] ast@[k])) < usize::MAX,
        decreases n - i,
    {
        proof {
            crate::ast::lemma_view_asts_len(ast@);
            lemma_view_asts_at(ast@, i as int);
        }
        let mut item = src.remove(0);
        let k = item.index();
        if k >= at {
            item.set_index(k + 1);
        }
        proof {
            let ms = input.map_values(f);
            assert(view_ast(item) == ms[i as int]);
            assert(ms.subrange(0, i + 1).drop_last() =~= ms.subrange(0, i as int));
            assert(src@ =~= ast@.subrange(i + 1, n as int));
        }
        insert_sorted(&mut out, item);
        i = i + 1;
    }
    proof {
        let ms = input.map_values(f);
        assert(ms.subrange(0, n as int) =~= ms);
        assert(ms.push(view_ast(node)).drop_last() =~= ms);
    }
    insert_sorted(&mut out, node);
    out
}

} // verus!
