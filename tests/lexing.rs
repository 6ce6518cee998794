use renpy_parser::error::ParseError;
use renpy_parser::grouper::{group_logical_lines, Block};
use renpy_parser::lexer::Lexer;
use renpy_parser::parsers::{
    parse_audio_filename, parse_audio_specifier, parse_block, parse_image_specifier,
    parse_simple_expression_list, parse_statement, parse_with, ParameterInfo, AST,
};
use renpy_parser::scanner::{parse_logical_lines, LogicalLine};

fn s(x: &str) -> String {
    x.to_string()
}

fn block(line: usize, text: &str, subblocks: Vec<Block>) -> Block {
    Block { filename: s("f.rpy"), line_number: line, text: s(text), subblocks }
}

/// A lexer standing on a single line of text.
fn on(text: &str) -> Lexer {
    let mut l = Lexer::new(vec![block(1, text, vec![])], false);
    assert!(l.advance());
    l
}

fn line(n: usize, text: &str) -> LogicalLine {
    LogicalLine { filename: s("f.rpy"), line_number: n, text: s(text) }
}

#[test]
fn logical_lines_join_and_skip() {
    let lines = parse_logical_lines(s("a (b\n c)\n\n  # note\nd \\\ne 'x\ny'\n"), s("f.rpy")).unwrap();
    let got: Vec<(usize, String)> = lines.iter().map(|l| (l.line_number, l.text.clone())).collect();
    assert_eq!(got, vec![(1, s("a (b\n c)")), (5, s("d \ne 'x\ny'"))]);
    assert_eq!(lines[0].filename, "f.rpy");
}

#[test]
fn logical_lines_keep_indentation() {
    let lines = parse_logical_lines(s("label a:\n    \"x\" # said\n"), s("f.rpy")).unwrap();
    assert_eq!(lines[1].text, "    \"x\" ");
    assert_eq!(lines[1].line_number, 2);
}

#[test]
fn closing_bracket_never_goes_below_zero() {
    let lines = parse_logical_lines(s(") a\nb\n"), s("f.rpy")).unwrap();
    assert_eq!(lines.len(), 2);
}

#[test]
fn grouping_builds_the_tree() {
    let lines = vec![line(1, "label a:"), line(2, "    \"x\""), line(3, "    label b:"), line(4, "        \"y\""), line(5, "\"z\"")];
    let blocks = group_logical_lines(lines).unwrap();
    assert_eq!(blocks.len(), 2);
    assert_eq!(blocks[0].text, "label a:");
    assert_eq!(blocks[0].subblocks.len(), 2);
    assert_eq!(blocks[0].subblocks[1].text, "label b:");
    assert_eq!(blocks[0].subblocks[1].subblocks[0].text, "\"y\"");
    assert_eq!(blocks[0].subblocks[1].subblocks[0].line_number, 4);
    assert_eq!(blocks[1].text, "\"z\"");
}

#[test]
fn grouping_rejects_mismatched_siblings() {
    let lines = vec![line(1, "a"), line(2, "    b"), line(3, "  c")];
    let e = group_logical_lines(lines).unwrap_err();
    assert_eq!(e.message, "indentation mismatch");
    assert_eq!(e.line_number, 3);
}

#[test]
fn grouping_rejects_indented_first_line_followed_by_shallower() {
    let lines = vec![line(1, "  a"), line(2, "b")];
    let e = group_logical_lines(lines).unwrap_err();
    assert_eq!(e.line_number, 2);
}

#[test]
fn advance_walks_the_blocks() {
    let mut l = Lexer::new(vec![block(3, "a", vec![]), block(4, "b", vec![])], false);
    assert!(!l.eob());
    assert!(l.advance());
    assert_eq!(l.get_location(), 3);
    assert_eq!(l.text(), "a");
    assert!(l.advance());
    assert_eq!(l.text(), "b");
    assert!(!l.advance());
    assert!(l.eob());
}

#[test]
fn words_names_and_keywords() {
    let mut l = on("  show eileen.happy 9lives jump");
    assert_eq!(l.keyword("show"), Some(s("show")));
    assert_eq!(l.name(), Some(s("eileen.happy")));
    assert_eq!(l.name(), None);
    assert_eq!(l.word(), Some(s("9lives")));
    let before = l.pos();
    assert_eq!(l.name(), None);
    assert_eq!(l.pos(), before);
    assert_eq!(l.word(), Some(s("jump")));
    assert!(l.eol());
}

#[test]
fn keyword_requires_boundary() {
    let mut l = on("showing");
    assert_eq!(l.keyword("show"), None);
    assert_eq!(l.pos(), 0);
}

#[test]
fn numbers() {
    let mut l = on("-42 +3.5e2 .5 x");
    assert_eq!(l.integer(), Some(s("-42")));
    assert_eq!(l.float(), Some(s("+3.5e2")));
    assert_eq!(l.float(), Some(s(".5")));
    assert_eq!(l.integer(), None);
    assert_eq!(l.float(), None);
}

#[test]
fn strings() {
    let mut l = on("'it\\'s'  `a   b`");
    assert_eq!(l.string(), Some(s("it's")));
    assert_eq!(l.string(), Some(s("a b")));
    assert_eq!(l.string(), None);
}

#[test]
fn unicode_escape_is_one_byte() {
    let mut l = on("\"\\u41\\u00e9\"");
    assert_eq!(l.string(), Some(s("A\u{e9}")));
}

#[test]
fn rest_and_eol() {
    let mut l = on("define  x = 1  ");
    assert_eq!(l.keyword("define"), Some(s("define")));
    assert!(!l.eol());
    assert_eq!(l.rest(), "x = 1  ");
    assert!(l.eol());
    assert!(l.expect_eol().is_ok());
}

#[test]
fn expect_eol_reports_position() {
    let mut l = on("a b");
    l.word();
    let e = l.expect_eol().unwrap_err();
    assert_eq!(e.message, "end of line expected");
    assert_eq!(e.pos, Some(2));
    assert_eq!(e.line, Some(s("a b")));
}

#[test]
fn checkpoint_and_revert() {
    let mut l = on("alpha beta");
    let state = l.checkpoint();
    l.word();
    l.word();
    assert!(l.eol());
    l.revert(state);
    assert_eq!(l.pos(), 0);
    assert_eq!(l.word(), Some(s("alpha")));
}

#[test]
fn regular_expressions_match_at_the_position() {
    let mut l = on("abc 123");
    assert_eq!(l.match_("[0-9]+"), None);
    assert_eq!(l.match_("[a-z]+"), Some(s("abc")));
    assert_eq!(l.require("[0-9]+").unwrap(), "123");
    let e = l.require("x").unwrap_err();
    assert_eq!(e.message, "expected 'x' not found");
    assert_eq!(on("a").match_("("), None);
}

#[test]
fn blocks_and_sub_lexers() {
    let mut l = Lexer::new(vec![block(1, "label a:", vec![block(2, "\"x\"", vec![])])], true);
    l.advance();
    assert!(l.expect_block("label").is_ok());
    let e = l.expect_noblock("label").unwrap_err();
    assert_eq!(e.message, "label does not expect a block. Please check the indentation of the line after this one.");
    let mut sub = l.subblock_lexer(false);
    assert!(sub.advance());
    assert_eq!(sub.get_location(), 2);
    let e2 = sub.expect_block("say").unwrap_err();
    assert_eq!(e2.message, "say expects a non-empty block.");
}

#[test]
fn error_carries_line_and_position() {
    let l = on("xyz");
    let e = l.error("boom").unwrap_err();
    assert_eq!(e.filename, "f.rpy");
    assert_eq!(e.line_number, 1);
    assert_eq!(e.message, "boom");
    assert_eq!(e.to_string(), "On line 1 of f.rpy: boom");
}

#[test]
fn parse_error_text() {
    let e = ParseError::new(s("game/script.rpy"), 1234, s("bad"), None, None);
    assert_eq!(e.to_string(), "On line 1234 of game/script.rpy: bad");
}

#[test]
fn simple_expressions() {
    let mut l = on("  a.b+c \"x\"");
    assert_eq!(l.simple_expression().unwrap(), Some(s("a.b+c")));
    let mut m = on("   ");
    assert_eq!(m.simple_expression().unwrap(), None);
}

#[test]
fn stop_arguments_read_the_fade() {
    let mut l = on("fadeout 2.25");
    assert_eq!(l.stop_arguments(), (Some(s("fadeout")), Some(s("2.25"))));
    let mut m = on("fadeout 2");
    assert_eq!(m.stop_arguments(), (None, None));
}

#[test]
fn audio_filenames() {
    let mut l = on("\"music/theme.ogg\"");
    assert_eq!(l.audio_filename(), Some(s("\"music/theme.ogg\"")));
    let mut m = on("\"a.ogg\"");
    assert_eq!(m.audio_filename(), None);
    let mut n = on("music \"x_y.mp3\"");
    assert_eq!(parse_audio_specifier(&mut n).unwrap(), "music");
    assert_eq!(parse_audio_filename(&mut n).unwrap(), "x_y.mp3");
}

#[test]
fn image_specifier_joins_names() {
    let mut l = on("eileen happy  smile");
    let (name, expr, layer) = parse_image_specifier(&mut l).unwrap();
    assert_eq!(name, "eileen happy smile");
    assert_eq!(expr, None);
    assert_eq!(layer, "master");
}

#[test]
fn image_specifier_without_names_is_empty() {
    let mut l = on("\"x\"");
    assert_eq!(parse_image_specifier(&mut l).unwrap().0, "");
}

#[test]
fn simple_expression_lists() {
    assert_eq!(parse_simple_expression_list(" a , b,c ").unwrap(), vec![s("a"), s("b"), s("c")]);
    assert_eq!(parse_simple_expression_list("").unwrap(), vec![s("")]);
    assert_eq!(parse_simple_expression_list("x,").unwrap(), vec![s("x"), s("")]);
}

#[test]
fn statement_and_block_drivers() {
    let mut l = Lexer::new(vec![block(1, "hide bg", vec![]), block(2, "?", vec![]), block(3, "return", vec![])], false);
    l.advance();
    let stmt = parse_statement(&mut l).unwrap();
    assert_eq!(stmt, AST::Hide(1, s("bg")));
    assert_eq!(l.get_location(), 2);
    let mut m = Lexer::new(vec![block(1, "hide bg", vec![]), block(2, "?", vec![]), block(3, "return", vec![])], false);
    let (ast, errors) = parse_block(&mut m);
    assert_eq!(ast, vec![AST::Hide(1, s("bg")), AST::Return(3, None)]);
    assert_eq!(errors, vec![s("On line 2 of f.rpy: expected statement.")]);
    assert!(m.eob());
}

#[test]
fn with_clause_passes_the_node() {
    let mut l = on("x");
    let v = parse_with(&mut l, AST::Show(1, s("a"))).unwrap();
    assert_eq!(v, vec![AST::Show(1, s("a"))]);
}

#[test]
fn parameter_info_holds_parameters() {
    let p = ParameterInfo { parameters: vec![(s("a"), None)], positional: vec![s("a")], extrapos: None, extrakw: Some(s("kw")) };
    assert_eq!(p.positional.len(), 1);
    assert_eq!(p.extrakw, Some(s("kw")));
}

#[test]
fn block_copy_is_deep() {
    let b = block(1, "a", vec![block(2, "b", vec![])]);
    let c = b.copy();
    assert_eq!(c.text, "a");
    assert_eq!(c.subblocks[0].text, "b");
    assert_eq!(c.subblocks[0].line_number, 2);
}

#[test]
fn take_match_accepts_only_a_match_at_the_position() {
    let mut l = on("abc def");
    assert_eq!(l.take_match(Some((s("x"), s("abc")))), None);
    assert_eq!(l.take_match(Some((s(""), s("abd")))), None);
    assert_eq!(l.take_match(None), None);
    assert_eq!(l.pos(), 0);
    assert_eq!(l.take_match(Some((s(""), s("ab")))), Some(s("ab")));
    assert_eq!(l.pos(), 2);
}

#[test]
fn inject_node_shifts_and_sorts() {
    let ast = vec![AST::Say(3, None, s("c")), AST::Say(1, None, s("a")), AST::Say(2, None, s("b"))];
    let r = renpy_parser::parsers::inject_node(ast, AST::Show(2, s("x")));
    assert_eq!(
        r,
        vec![
            AST::Say(1, None, s("a")),
            AST::Show(2, s("x")),
            AST::Say(3, None, s("b")),
            AST::Say(4, None, s("c")),
        ]
    );
}

#[test]
fn inject_node_keeps_ties_in_order() {
    let ast = vec![AST::Hide(1, s("a")), AST::Hide(1, s("b"))];
    let r = renpy_parser::parsers::inject_node(ast, AST::Show(5, s("x")));
    assert_eq!(r, vec![AST::Hide(1, s("a")), AST::Hide(1, s("b")), AST::Show(5, s("x"))]);
}
