//! The abstract syntax tree of a script.
use vstd::prelude::*;
use crate::chars::{append_chars, chars_of, string_of};
use crate::error::decimal;

verus! {

/// A statement of a script. The first field of every variant but `Error` is
/// its location: the line on which the statement starts.
#[derive(Debug, PartialEq)]
pub enum AST {
    /// `define TEXT`
    Define(usize, String),
    /// `hide IMAGE`
    Hide(usize, String),
    /// `jump TARGET`; the flag marks a computed target.
    Jump(usize, String, bool),
    /// `label NAME:` with its body and parameters.
    Label(usize, String, Vec<AST>, Option<String>),
    /// `play KIND "FILE"`
    Play(usize, String, String),
    /// `return [EXPR]`
    Return(usize, Option<String>),
    /// `[WHO] "WHAT"`
    Say(usize, Option<String>, String),
    /// `scene [IMAGE]` on a layer.
    Scene(usize, Option<String>, String),
    /// `show IMAGE`
    Show(usize, String),
    /// `stop KIND [EFFECT SECONDS]`, the seconds as written.
    Stop(usize, String, Option<String>, Option<String>),
    /// `game_mechanic "TEXT"`
    GameMechanic(usize, String),
    /// `llm_generate WHO ["PROMPT"]`
    LLMGenerate(usize, String, Option<String>),
    /// `# TEXT`
    Comment(usize, String),
    /// `init [PRIORITY]:` with its body.
    Init(usize, Vec<AST>, i64),
    /// A placeholder for a statement that could not be read.
    Error,
}

/// A statement as mathematical values.
pub enum Node {
    Define(nat, Seq<char>),
    Hide(nat, Seq<char>),
    Jump(nat, Seq<char>, bool),
    Label(nat, Seq<char>, Seq<Node>, Option<Seq<char>>),
    Play(nat, Seq<char>, Seq<char>),
    Return(nat, Option<Seq<char>>),
    Say(nat, Option<Seq<char>>, Seq<char>),
    Scene(nat, Option<Seq<char>>, Seq<char>),
    Show(nat, Seq<char>),
    Stop(nat, Seq<char>, Option<Seq<char>>, Option<Seq<char>>),
    GameMechanic(nat, Seq<char>),
    LLMGenerate(nat, Seq<char>, Option<Seq<char>>),
    Comment(nat, Seq<char>),
    Init(nat, Seq<Node>, int),
    Error,
}

pub open spec fn view_opt(o: Option<String>) -> Option<Seq<char>> {
    match o {
        Some(s) => Some(s@),
        None => None,
    }
}

/// One statement as mathematical values.
pub open spec fn view_ast(a: AST) -> Node
    decreases a,
{
    match a {
        AST::Define(l, s) => Node::Define(l as nat, s@),
        AST::Hide(l, s) => Node::Hide(l as nat, s@),
        AST::Jump(l, s, e) => Node::Jump(l as nat, s@, e),
        AST::Label(l, s, body, params) => Node::Label(l as nat, s@, view_asts(body@), view_opt(params)),
        AST::Play(l, k, f) => Node::Play(l as nat, k@, f@),
        AST::Return(l, e) => Node::Return(l as nat, view_opt(e)),
        AST::Say(l, who, what) => Node::Say(l as nat, view_opt(who), what@),
        AST::Scene(l, name, layer) => Node::Scene(l as nat, view_opt(name), layer@),
        AST::Show(l, s) => Node::Show(l as nat, s@),
        AST::Stop(l, k, effect, secs) => Node::Stop(l as nat, k@, view_opt(effect), view_opt(secs)),
        AST::GameMechanic(l, s) => Node::GameMechanic(l as nat, s@),
        AST::LLMGenerate(l, who, prompt) => Node::LLMGenerate(l as nat, who@, view_opt(prompt)),
        AST::Comment(l, s) => Node::Comment(l as nat, s@),
        AST::Init(l, body, prio) => Node::Init(l as nat, view_asts(body@), prio as int),
        AST::Error => Node::Error,
    }
}

/// The statements `v` as mathematical values.
pub open spec fn view_asts(v: Seq<AST>) -> Seq<Node>
    decreases v,
{
    if v.len() == 0 {
        seq![]
    } else {
        seq![view_ast(v[0])] + view_asts(v.subrange(1, v.len() as int))
    }
}

/// The location of a statement; `Error` has none.
pub open spec fn loc_of(n: Node) -> Option<nat> {
    match n {
        Node::Define(l, _) => Some(l),
        Node::Hide(l, _) => Some(l),
        Node::Jump(l, _, _) => Some(l),
        Node::Label(l, _, _, _) => Some(l),
        Node::Play(l, _, _) => Some(l),
        Node::Return(l, _) => Some(l),
        Node::Say(l, _, _) => Some(l),
        Node::Scene(l, _, _) => Some(l),
        Node::Show(l, _) => Some(l),
        Node::Stop(l, _, _, _) => Some(l),
        Node::GameMechanic(l, _) => Some(l),
        Node::LLMGenerate(l, _, _) => Some(l),
        Node::Comment(l, _) => Some(l),
        Node::Init(l, _, _) => Some(l),
        Node::Error => None,
    }
}

pub proof fn lemma_view_asts_len(v: Seq<AST>)
    ensures
        view_asts(v).len() == v.len(),
    decreases v.len(),
{
    if v.len() > 0 {
        lemma_view_asts_len(v.subrange(1, v.len() as int));
    }
}

pub proof fn lemma_view_asts_push(v: Seq<AST>, a: AST)
    ensures
        view_asts(v.push(a)) == view_asts(v).push(view_ast(a)),
    decreases v.len(),
{
    assert(seq![a].subrange(1, 1) =~= Seq::<AST>::empty());
    lemma_view_asts_len(seq![a]);
    if v.len() == 0 {
        assert(v.push(a) =~= seq![a]);
        assert(view_asts(v) =~= Seq::<Node>::empty());
        assert(view_asts(seq![a]) =~= seq![view_ast(a)]);
    } else {
        let w = v.push(a);
        assert(w.subrange(1, w.len() as int) =~= v.subrange(1, v.len() as int).push(a));
        lemma_view_asts_push(v.subrange(1, v.len() as int), a);
        assert(view_asts(w) =~= view_asts(v).push(view_ast(a)));
    }
}

/// The decimal notation of `n`, with a minus sign if it is negative.
pub open spec fn signed_decimal(n: int) -> Seq<char> {
    if n < 0 {
        seq!['-'] + decimal((-n) as nat)
    } else {
        decimal(n as nat)
    }
}

/// Relies on `ToString` for `i64`: the decimal notation of the number, with
/// a minus sign if it is negative.
#[verifier::external_body]
fn i64_text(n: i64) -> (r: String)
    ensures
        r@ == signed_decimal(n as int),
{
    n.to_string()
}

/// `s[i..]` with four spaces after each newline.
pub open spec fn indent_newlines(s: Seq<char>, i: int) -> Seq<char>
    decreases s.len() - i,
{
    if i < 0 || i >= s.len() {
        seq![]
    } else if s[i] == '\n' {
        "\n    "@ + indent_newlines(s, i + 1)
    } else {
        seq![s[i]] + indent_newlines(s, i + 1)
    }
}

pub open spec fn quoted(s: Seq<char>) -> Seq<char> {
    seq!['"'] + s + seq!['"']
}

/// The text of a statement in the script language.
pub open spec fn fmt_node(n: Node) -> Seq<char>
    decreases n,
{
    match n {
        Node::Define(_, d) => "define "@ + d,
        Node::Hide(_, i) => "hide "@ + i,
        Node::Jump(_, t, _) => "jump "@ + t,
        Node::Label(_, name, body, _) => "label "@ + name + ":\n    "@ + indent_newlines(fmt_nodes(body), 0),
        Node::Play(_, k, f) => "play "@ + k + " "@ + quoted(f),
        Node::Return(_, e) => match e {
            Some(x) => "return "@ + x,
            None => "return"@,
        },
        Node::Say(_, who, what) => match who {
            Some(w) => w + " "@ + quoted(what),
            None => quoted(what),
        },
        Node::Scene(_, name, _) => match name {
            Some(x) => "scene "@ + x,
            None => "scene"@,
        },
        Node::Show(_, i) => "show "@ + i,
        Node::Stop(_, k, effect, secs) => match (effect, secs) {
            (Some(e), Some(x)) => "stop "@ + k + " "@ + e + " "@ + x,
            _ => "stop "@ + k,
        },
        Node::GameMechanic(_, m) => "game_mechanic "@ + quoted(m),
        Node::LLMGenerate(_, who, prompt) => match prompt {
            Some(p) => "llm_generate "@ + who + " "@ + quoted(p),
            None => "llm_generate "@ + who,
        },
        Node::Comment(_, c) => "#"@ + c,
        Node::Init(_, body, prio) => "init "@ + signed_decimal(prio) + ":\n    "@ + indent_newlines(fmt_nodes(body), 0),
        Node::Error => seq![],
    }
}

/// The texts of the statements, one per line.
pub open spec fn fmt_nodes(v: Seq<Node>) -> Seq<char>
    decreases v,
{
    if v.len() == 0 {
        seq![]
    } else if v.len() == 1 {
        fmt_node(v[0])
    } else {
        fmt_node(v[0]) + "\n"@ + fmt_nodes(v.subrange(1, v.len() as int))
    }
}

proof fn lemma_fmt_push(v: Seq<Node>, n: Node)
    requires
        v.len() >= 1,
    ensures
        fmt_nodes(v.push(n)) == fmt_nodes(v) + "\n"@ + fmt_node(n),
    decreases v.len(),
{
    let w = v.push(n);
    if v.len() == 1 {
        assert(w.subrange(1, w.len() as int) =~= seq![n]);
        assert(seq![n][0] == n);
        assert(fmt_nodes(seq![n]) == fmt_node(n));
        assert(w[0] == v[0]);
        assert(fmt_nodes(w) =~= fmt_nodes(v) + "\n"@ + fmt_node(n));
    } else {
        assert(w.subrange(1, w.len() as int) =~= v.subrange(1, v.len() as int).push(n));
        lemma_fmt_push(v.subrange(1, v.len() as int), n);
        assert(fmt_nodes(w) =~= fmt_nodes(v) + "\n"@ + fmt_node(n));
    }
}

fn indent_newlines_exec(s: &[char]) -> (r: Vec<char>)
    ensures
        r@ == indent_newlines(s@, 0),
{
    let n = s.len();
    let mut r: Vec<char> = Vec::new();
    let mut i: usize = 0;
    let nl = chars_of("\n    ");
    while i < n
        invariant
            n == s@.len(),
            i <= n,
            nl@ == "\n    "@,
            r@ + indent_newlines(s@, i as int) == indent_newlines(s@, 0),
        decreases n - i,
    {
        if s[i] == '\n' {
            proof {
                assert(r@ + indent_newlines(s@, i as int) =~= (r@ + nl@) + indent_newlines(s@, i + 1));
            }
            append_chars(&mut r, &nl);
        } else {
            proof {
                assert(r@ + indent_newlines(s@, i as int) =~= r@.push(s@[i as int]) + indent_newlines(s@, i + 1));
            }
            r.push(s[i]);
        }
        i = i + 1;
    }
    proof {
        assert(r@ + indent_newlines(s@, i as int) =~= r@);
    }
    r
}

fn push_quoted(out: &mut Vec<char>, s: &String)
    ensures
        final(out)@ == old(out)@ + quoted(s@),
{
    out.push('"');
    append_chars(out, &chars_of(s.as_str()));
    out.push('"');
    proof {
        assert(final(out)@ =~= old(out)@ + quoted(s@));
    }
}

fn push_str(out: &mut Vec<char>, s: &str)
    ensures
        final(out)@ == old(out)@ + s@,
{
    append_chars(out, &chars_of(s));
}

/// The text of a statement in the script language.
fn format_ast(a: &AST) -> (r: Vec<char>)
    ensures
        r@ == fmt_node(view_ast(*a)),
    decreases a,
{
    let mut out: Vec<char> = Vec::new();
    match a {
        AST::Define(_, d) => {
            push_str(&mut out, "define ");
            push_str(&mut out, d.as_str());
        },
        AST::Hide(_, i) => {
            push_str(&mut out, "hide ");
            push_str(&mut out, i.as_str());
        },
        AST::Jump(_, t, _) => {
            push_str(&mut out, "jump ");
            push_str(&mut out, t.as_str());
        },
        AST::Label(_, name, body, _) => {
            push_str(&mut out, "label ");
            push_str(&mut out, name.as_str());
            push_str(&mut out, ":\n    ");
            let inner = format_asts(body);
            append_chars(&mut out, &indent_newlines_exec(&inner));
        },
        AST::Play(_, k, f) => {
            push_str(&mut out, "play ");
            push_str(&mut out, k.as_str());
            push_str(&mut out, " ");
            push_quoted(&mut out, f);
        },
        AST::Return(_, e) => {
            match e {
                Some(x) => {
                    push_str(&mut out, "return ");
                    push_str(&mut out, x.as_str());
                },
                None => push_str(&mut out, "return"),
            }
        },
        AST::Say(_, who, what) => {
            match who {
                Some(w) => {
                    push_str(&mut out, w.as_str());
                    push_str(&mut out, " ");
                },
                None => {},
            }
            push_quoted(&mut out, what);
        },
        AST::Scene(_, name, _) => {
            match name {
                Some(x) => {
                    push_str(&mut out, "scene ");
                    push_str(&mut out, x.as_str());
                },
                None => push_str(&mut out, "scene"),
            }
        },
        AST::Show(_, i) => {
            push_str(&mut out, "show ");
            push_str(&mut out, i.as_str());
        },
        AST::Stop(_, k, effect, secs) => {
            push_str(&mut out, "stop ");
            push_str(&mut out, k.as_str());
            match (effect, secs) {
                (Some(e), Some(x)) => {
                    push_str(&mut out, " ");
                    push_str(&mut out, e.as_str());
                    push_str(&mut out, " ");
                    push_str(&mut out, x.as_str());
                },
                _ => {},
            }
        },
        AST::GameMechanic(_, m) => {
            push_str(&mut out, "game_mechanic ");
            push_quoted(&mut out, m);
        },
        AST::LLMGenerate(_, who, prompt) => {
            push_str(&mut out, "llm_generate ");
            push_str(&mut out, who.as_str());
            match prompt {
                Some(p) => {
                    push_str(&mut out, " ");
                    push_quoted(&mut out, p);
                },
                None => {},
            }
        },
        AST::Comment(_, c) => {
            push_str(&mut out, "#");
            push_str(&mut out, c.as_str());
        },
        AST::Init(_, body, prio) => {
            push_str(&mut out, "init ");
            push_str(&mut out, i64_text(*prio).as_str());
            push_str(&mut out, ":\n    ");
            let inner = format_asts(body);
            append_chars(&mut out, &indent_newlines_exec(&inner));
        },
        AST::Error => {},
    }
    proof {
        assert(out@ =~= fmt_node(view_ast(*a)));
    }
    out
}

/// The texts of the statements, one per line.
fn format_asts(v: &Vec<AST>) -> (r: Vec<char>)
    ensures
        r@ == fmt_nodes(view_asts(v@)),
    decreases v,
{
    let mut out: Vec<char> = Vec::new();
    let mut i: usize = 0;
    proof {
        lemma_view_asts_len(v@);
        assert(v@.subrange(0, 0) =~= Seq::<AST>::empty());
        assert(view_asts(v@.subrange(0, 0)) =~= Seq::<Node>::empty());
    }
    while i < v.len()
        invariant
            i <= v@.len(),
            out@ == fmt_nodes(view_asts(v@.subrange(0, i as int))),
        decreases v@.len() - i,
    {
        proof {
            assert(decreases_to!(v => v@[i as int]));
            lemma_view_asts_push(v@.subrange(0, i as int), v@[i as int]);
            assert(v@.subrange(0, i as int).push(v@[i as int]) =~= v@.subrange(0, i + 1));
            lemma_view_asts_len(v@.subrange(0, i as int));
        }
        let f = format_ast(&v[i]);
        if i > 0 {
            proof {
                lemma_fmt_push(view_asts(v@.subrange(0, i as int)), view_ast(v@[i as int]));
            }
            out.push('\n');
            append_chars(&mut out, &f);
            proof {
                reveal_strlit("\n");
                assert(out@ =~= fmt_nodes(view_asts(v@.subrange(0, i + 1))));
            }
        } else {
            proof {
                assert(view_asts(v@.subrange(0, 1)) =~= seq![view_ast(v@[0])]);
            }
            append_chars(&mut out, &f);
        }
        i = i + 1;
    }
    proof {
        assert(v@.subrange(0, v@.len() as int) =~= v@);
    }
    out
}

/// The statement `n` with its location set to `i`.
pub open spec fn with_loc(n: Node, i: nat) -> Node {
    match n {
        Node::Define(_, a) => Node::Define(i, a),
        Node::Hide(_, a) => Node::Hide(i, a),
        Node::Jump(_, a, b) => Node::Jump(i, a, b),
        Node::Label(_, a, b, c) => Node::Label(i, a, b, c),
        Node::Play(_, a, b) => Node::Play(i, a, b),
        Node::Return(_, a) => Node::Return(i, a),
        Node::Say(_, a, b) => Node::Say(i, a, b),
        Node::Scene(_, a, b) => Node::Scene(i, a, b),
        Node::Show(_, a) => Node::Show(i, a),
        Node::Stop(_, a, b, c) => Node::Stop(i, a, b, c),
        Node::GameMechanic(_, a) => Node::GameMechanic(i, a),
        Node::LLMGenerate(_, a, b) => Node::LLMGenerate(i, a, b),
        Node::Comment(_, a) => Node::Comment(i, a),
        Node::Init(_, a, b) => Node::Init(i, a, b),
        Node::Error => Node::Error,
    }
}

impl AST {
    /// The location of the statement; `Error` has none.
    pub fn index(&self) -> (r: usize)
        requires
            !(*self is Error),
        ensures
            loc_of(view_ast(*self)) == Some(r as nat),
    {
        match self {
            AST::Define(i, _) => *i,
            AST::Hide(i, _) => *i,
            AST::Jump(i, _, _) => *i,
            AST::Label(i, _, _, _) => *i,
            AST::Play(i, _, _) => *i,
            AST::Return(i, _) => *i,
            AST::Say(i, _, _) => *i,
            AST::Scene(i, _, _) => *i,
            AST::Show(i, _) => *i,
            AST::Stop(i, _, _, _) => *i,
            AST::GameMechanic(i, _) => *i,
            AST::LLMGenerate(i, _, _) => *i,
            AST::Comment(i, _) => *i,
            AST::Init(i, _, _) => *i,
            AST::Error => 0,
        }
    }

    /// Sets the location of the statement; `Error` has none.
    pub fn set_index(&mut self, index: usize)
        requires
            !(*old(self) is Error),
        ensures
            view_ast(*final(self)) == with_loc(view_ast(*old(self)), index as nat),
    {
        match self {
            AST::Define(i, _) => *i = index,
            AST::Hide(i, _) => *i = index,
            AST::Jump(i, _, _) => *i = index,
            AST::Label(i, _, _, _) => *i = index,
            AST::Play(i, _, _) => *i = index,
            AST::Return(i, _) => *i = index,
            AST::Say(i, _, _) => *i = index,
            AST::Scene(i, _, _) => *i = index,
            AST::Show(i, _) => *i = index,
            AST::Stop(i, _, _, _) => *i = index,
            AST::GameMechanic(i, _) => *i = index,
            AST::LLMGenerate(i, _, _) => *i = index,
            AST::Comment(i, _) => *i = index,
            AST::Init(i, _, _) => *i = index,
            AST::Error => {},
        }
    }

    /// The statement in the script language.
    pub fn to_string(&self) -> (r: String)
        ensures
            r@ == fmt_node(view_ast(*self)),
    {
        string_of(&format_ast(self))
    }
}

/// A list of statements, to be shown one per line.
pub struct ASTVec<'a>(pub &'a Vec<AST>);

impl<'a> ASTVec<'a> {
    /// The statements in the script language, one per line.
    pub fn to_string(&self) -> (r: String)
        ensures
            r@ == fmt_nodes(view_asts(self.0@)),
    {
        string_of(&format_asts(self.0))
    }
}

} // verus!
