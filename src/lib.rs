//! A parser for a Ren'Py-style visual-novel scripting language.
//!
//! Source text is split into logical lines (`scanner`), grouped into an
//! indentation tree of blocks (`grouper`), and read statement by statement
//! (`parsers`) with a cursor over the blocks (`lexer`, on the tokens of
//! `tokens` and `literal`) into an abstract syntax tree (`ast`). Each stage
//! is specified by spec functions that state its result exactly;
//! `parse_scenario` runs them all, and `laws` proves properties that
//! connect them.
use vstd::prelude::*;

pub mod chars;
pub mod error;
pub mod scanner;
pub mod grouper;
pub mod lexer;
pub mod tokens;
pub mod literal;
pub mod ast;
pub mod parsers;
pub mod laws;
pub mod paths;

pub use crate::paths::elide_filename;

pub use crate::scanner::LogicalLine;

use crate::ast::{view_asts, Node, AST};
use crate::error::ParseError;
use crate::grouper::{group_from, group_logical_lines, line_views, LineView};
use crate::lexer::Lexer;
use crate::parsers::{block_outcomes, errs, oks, parse_block, texts};
use crate::scanner::{
    count_newlines, parse_logical_lines, prepared, scan_all, tab_index, tab_message, unterminated,
    unterminated_message,
};

verus! {

/// The scanned lines `(line number, text)` of a file named `f`.
pub open spec fn scan_lines(lines: Seq<(nat, Seq<char>)>, f: Seq<char>) -> Seq<LineView> {
    lines.map_values(|p: (nat, Seq<char>)| LineView { filename: f, line_number: p.0, text: p.1 })
}

/// What parsing the script `text` of the file `f` gives: its top-level
/// statements and its soft errors, or the line and message of a fatal error.
pub open spec fn scenario(text: Seq<char>, f: Seq<char>) -> Result<(Seq<Node>, Seq<Seq<char>>), (nat, Seq<char>)> {
    let cs = prepared(text);
    let t = tab_index(cs, 0);
    let st = scan_all(cs);
    if t < cs.len() {
        Err((1 + count_newlines(cs.subrange(0, t)), tab_message()))
    } else if unterminated(st) {
        Err((st.start, unterminated_message()))
    } else {
        let lines = scan_lines(st.lines, f);
        match group_from(lines, 0, None, None) {
            Err(i) => Err((lines[i].line_number, "indentation mismatch"@)),
            Ok((bs, _)) => Ok((oks(block_outcomes(bs)), errs(block_outcomes(bs)))),
        }
    }
}

/// Parses the script `text` of the file `filename`: its statements and the
/// errors of the lines that were skipped, or a fatal error.
pub fn parse_scenario(text: String, filename: String) -> (r: Result<(Vec<AST>, Vec<String>), ParseError>)
    requires
        text@.len() + 3 <= usize::MAX,
    ensures
        match scenario(text@, filename@) {
            Ok((nodes, errors)) => r matches Ok((a, e)) && view_asts(a@) == nodes && texts(e@) == errors,
            Err((line, msg)) => r matches Err(e) && e.filename@ == filename@ && e.line_number == line
                && e.message@ == msg,
        },
{
    let ghost f = filename@;
    let lines = match parse_logical_lines(text, filename) {
        Ok(lines) => lines,
        Err(e) => {
            return Err(e);
        },
    };
    proof {
        let st = scan_all(prepared(text@));
        assert(line_views(lines@) =~= scan_lines(st.lines, f));
    }
    let blocks = match group_logical_lines(lines) {
        Ok(b) => b,
        Err(e) => {
            return Err(e);
        },
    };
    let mut l = Lexer::new(blocks, true);
    proof {
        l.lemma_wf();
        assert(l@.blocks.subrange(0, l@.blocks.len() as int) =~= l@.blocks);
    }
    Ok(parse_block(&mut l))
}

} // verus!
