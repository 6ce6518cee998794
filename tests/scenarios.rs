use renpy_parser::ast::{ASTVec, AST};
use renpy_parser::error::ParseError;
use renpy_parser::{elide_filename, parse_scenario};

fn parse(text: &str) -> Result<(Vec<AST>, Vec<String>), ParseError> {
    parse_scenario(text.to_string(), "script.rpy".to_string())
}

fn s(x: &str) -> String {
    x.to_string()
}

/// The statement with every location, nested ones included, set to zero.
fn strip(a: &AST) -> AST {
    match a {
        AST::Define(_, x) => AST::Define(0, x.clone()),
        AST::Hide(_, x) => AST::Hide(0, x.clone()),
        AST::Jump(_, x, e) => AST::Jump(0, x.clone(), *e),
        AST::Label(_, n, b, p) => AST::Label(0, n.clone(), b.iter().map(strip).collect(), p.clone()),
        AST::Play(_, k, f) => AST::Play(0, k.clone(), f.clone()),
        AST::Return(_, e) => AST::Return(0, e.clone()),
        AST::Say(_, w, t) => AST::Say(0, w.clone(), t.clone()),
        AST::Scene(_, n, l) => AST::Scene(0, n.clone(), l.clone()),
        AST::Show(_, x) => AST::Show(0, x.clone()),
        AST::Stop(_, k, e, x) => AST::Stop(0, k.clone(), e.clone(), x.clone()),
        AST::GameMechanic(_, x) => AST::GameMechanic(0, x.clone()),
        AST::LLMGenerate(_, w, p) => AST::LLMGenerate(0, w.clone(), p.clone()),
        AST::Comment(_, x) => AST::Comment(0, x.clone()),
        AST::Init(_, b, p) => AST::Init(0, b.iter().map(strip).collect(), *p),
        AST::Error => AST::Error,
    }
}

fn round_trip(text: &str) {
    let (first, errors) = parse(text).unwrap();
    assert!(errors.is_empty(), "{:?}", errors);
    let printed = ASTVec(&first).to_string();
    let (second, errors2) = parse(&printed).unwrap();
    assert!(errors2.is_empty(), "{:?}", errors2);
    let a: Vec<AST> = first.iter().map(strip).collect();
    let b: Vec<AST> = second.iter().map(strip).collect();
    assert_eq!(a, b, "printed as {:?}", printed);
}

#[test]
fn label_with_say_and_return() {
    let (ast, errors) = parse("label start:\n    \"Hello, world.\"\n    return\n").unwrap();
    assert!(errors.is_empty());
    assert_eq!(
        ast,
        vec![AST::Label(
            1,
            s("start"),
            vec![AST::Say(2, None, s("Hello, world.")), AST::Return(3, None)],
            None
        )]
    );
}

#[test]
fn five_top_level_statements() {
    let (ast, errors) = parse("scene bg room\nshow eileen happy\n\"Hi.\"\nhide eileen\nreturn\n").unwrap();
    assert!(errors.is_empty());
    assert_eq!(
        ast,
        vec![
            AST::Scene(1, Some(s("bg room")), s("master")),
            AST::Show(2, s("eileen happy")),
            AST::Say(3, None, s("Hi.")),
            AST::Hide(4, s("eileen")),
            AST::Return(5, None),
        ]
    );
}

#[test]
fn speaker_say() {
    let (ast, errors) = parse("eileen \"Hi there!\"\n").unwrap();
    assert!(errors.is_empty());
    assert_eq!(ast, vec![AST::Say(1, Some(s("eileen")), s("Hi there!"))]);
}

#[test]
fn tab_is_fatal() {
    let e = parse("label a:\n\t\"x\"\n").unwrap_err();
    assert!(e.message.contains("Tab characters are not allowed"));
    assert_eq!(e.line_number, 2);
    assert_eq!(e.filename, "script.rpy");
}

#[test]
fn tab_inside_comment_is_fatal() {
    let e = parse("\"a\"\n\"b\"\n# x\ty\n").unwrap_err();
    assert!(e.message.contains("Tab characters are not allowed"));
    assert_eq!(e.line_number, 3);
}

#[test]
fn indentation_mismatch_is_fatal() {
    let e = parse("label a:\n  \"x\"\n \"y\"\n").unwrap_err();
    assert!(e.message.contains("indentation mismatch"));
    assert_eq!(e.line_number, 3);
}

#[test]
fn deeper_line_nests_under_previous_sibling() {
    // A line deeper than the one before it is that line's child, so here
    // the say statement on line 2 has a block.
    let (ast, errors) = parse("label a:\n \"x\"\n  \"y\"\n").unwrap();
    assert!(ast.is_empty());
    assert_eq!(
        errors,
        vec![s("On line 1 of script.rpy: On line 2 of script.rpy: say statement does not expect a block. Please check the indentation of the line after this one.")]
    );
}

#[test]
fn unterminated_string_is_fatal() {
    let e = parse("\"unterminated\n").unwrap_err();
    assert!(e.message.contains("not terminated with a newline"));
    assert_eq!(e.line_number, 1);
}

#[test]
fn unterminated_bracket_names_its_first_line() {
    let e = parse("\"a\"\ndefine x = (1,\n 2\n").unwrap_err();
    assert!(e.message.contains("not terminated with a newline"));
    assert_eq!(e.line_number, 2);
}

#[test]
fn play_and_stop() {
    let (ast, errors) = parse("play music \"song.ogg\"\nstop music fadeout 1.5\n").unwrap();
    assert!(errors.is_empty());
    assert_eq!(
        ast,
        vec![
            AST::Play(1, s("music"), s("song.ogg")),
            AST::Stop(2, s("music"), Some(s("fadeout")), Some(s("1.5"))),
        ]
    );
}

#[test]
fn stop_without_fade() {
    let (ast, _) = parse("stop sound\n").unwrap();
    assert_eq!(ast, vec![AST::Stop(1, s("sound"), None, None)]);
}

#[test]
fn whitespace_only_source() {
    assert_eq!(parse("   \n\n  \r\n").unwrap(), (vec![], vec![]));
    assert_eq!(parse("").unwrap(), (vec![], vec![]));
}

#[test]
fn comments_and_blank_lines_only() {
    assert_eq!(parse("# a comment\n\n   # another \"one\n").unwrap(), (vec![], vec![]));
}

#[test]
fn locations_are_line_numbers() {
    let (ast, _) = parse("\n\"a\"\n\n\n\"b\" \\\n\n\"c\"\n").unwrap();
    let locs: Vec<usize> = ast.iter().map(|a| a.index()).collect();
    assert_eq!(locs, vec![2, 5, 7]);
}

#[test]
fn formatting_twice_gives_the_same_text() {
    let (ast, _) = parse("label start:\n    e \"Hi\"\n    jump end\nscene bg\n").unwrap();
    let a = ASTVec(&ast).to_string();
    let b = ASTVec(&ast).to_string();
    assert_eq!(a, b);
    assert_eq!(a, "label start:\n    e \"Hi\"\n    jump end\nscene bg");
}

#[test]
fn round_trip_scenarios() {
    round_trip("label start:\n    \"Hello, world.\"\n    return\n");
    round_trip("scene bg room\nshow eileen happy\n\"Hi.\"\nhide eileen\nreturn\n");
    round_trip("eileen \"Hi there!\"\n");
    round_trip("play music \"song.ogg\"\nstop music fadeout 1.5\n");
    round_trip("init 5:\n    define x = 1\nlabel a:\n    label b:\n        jump a\n");
    round_trip("game_mechanic \"roll dice\"\nllm_generate narrator \"describe\"\nllm_generate narrator\nscene\n");
    round_trip("return x + 1\ninit -3:\n    \"x\"\n");
}

#[test]
fn say_with_escapes_is_decoded() {
    let (ast, _) = parse("\"a\\nb  c \\u0041 \\\"q\\\"\"\n").unwrap();
    assert_eq!(ast, vec![AST::Say(1, None, s("a b c A \"q\""))]);
}

#[test]
fn raw_string_is_kept() {
    let (ast, _) = parse("e r\"a\\nb\"\n").unwrap();
    assert_eq!(ast, vec![AST::Say(1, Some(s("e")), s("a\\nb"))]);
}

#[test]
fn init_with_priority_and_default() {
    let (ast, errors) = parse("init 5:\n    \"x\"\ninit:\n    \"y\"\n").unwrap();
    assert!(errors.is_empty(), "{:?}", errors);
    assert_eq!(
        ast,
        vec![
            AST::Init(1, vec![AST::Say(2, None, s("x"))], 5),
            AST::Init(3, vec![AST::Say(4, None, s("y"))], 0),
        ]
    );
}

#[test]
fn init_errors() {
    let (_, errors) = parse("init 5\ninit:\ninit 99999999999999999999:\n    \"x\"\n").unwrap();
    assert_eq!(
        errors,
        vec![
            s("On line 1 of script.rpy: expected ':' not found"),
            s("On line 2 of script.rpy: init statement expects a non-empty block."),
            s("On line 3 of script.rpy: init priority is out of range"),
        ]
    );
}

#[test]
fn soft_errors_are_collected_in_order() {
    let src = "jump a b\nreturn\n    \"x\"\ngame_mechanic\nllm_generate\nplay noise \"a.ogg\"\nplay music \"a\"\n+++\n\"ok\"\n";
    let (ast, errors) = parse(src).unwrap();
    assert_eq!(ast, vec![AST::Say(9, None, s("ok"))]);
    assert_eq!(
        errors,
        vec![
            s("On line 1 of script.rpy: end of line expected"),
            s("On line 2 of script.rpy: return statement does not expect a block. Please check the indentation of the line after this one."),
            s("On line 4 of script.rpy: Expected a string after 'game_mechanic' keyword."),
            s("On line 5 of script.rpy: Expected word after 'llm_generate' keyword."),
            s("On line 6 of script.rpy: Play or sound is required"),
            s("On line 7 of script.rpy: provide mp3, ogg or wav file"),
            s("On line 8 of script.rpy: expected statement."),
        ]
    );
}

#[test]
fn error_in_label_body_fails_the_label() {
    let (ast, errors) = parse("label a:\n    +++\n\"b\"\n").unwrap();
    assert_eq!(ast, vec![AST::Say(3, None, s("b"))]);
    assert_eq!(
        errors,
        vec![s("On line 1 of script.rpy: On line 2 of script.rpy: expected statement.")]
    );
}

#[test]
fn say_with_block_is_an_error() {
    let (_, errors) = parse("e \"x\"\n    \"y\"\n").unwrap();
    assert_eq!(
        errors,
        vec![s("On line 1 of script.rpy: e statement does not expect a block. Please check the indentation of the line after this one.")]
    );
}

#[test]
fn expression_speaker_say() {
    let (ast, _) = parse("$who \"hi\"\n").unwrap();
    assert_eq!(ast, vec![AST::Say(1, Some(s("$who")), s("hi"))]);
}

#[test]
fn define_and_jump() {
    let (ast, _) = parse("define e = Character(\"Eileen\",\n    color=\"#c8ffc8\")\njump start\n").unwrap();
    assert_eq!(
        ast,
        vec![
            AST::Define(1, s("e = Character(\"Eileen\",\n    color=\"#c8ffc8\")")),
            AST::Jump(3, s("start"), false),
        ]
    );
}

#[test]
fn keyword_needs_a_word_boundary() {
    let (ast, _) = parse("shows \"x\"\n").unwrap();
    assert_eq!(ast, vec![AST::Say(1, Some(s("shows")), s("x"))]);
}

#[test]
fn byte_order_mark_and_crlf() {
    let (ast, _) = parse("\u{feff}\"a\"\r\n\"b\"\r\n").unwrap();
    assert_eq!(ast, vec![AST::Say(1, None, s("a")), AST::Say(2, None, s("b"))]);
}

#[test]
fn many_inputs_do_not_panic() {
    let inputs = [
        "(", ")", "\\", "'", "`", "#", "\"\\", "label", "init 1", "stop", "play", "scene scene",
        "show", "e '", "[\n]", "{a\n}\n", "\u{3000}x", "llm_generate a 'b' c",
    ];
    for i in inputs.iter() {
        let _ = parse(i);
    }
}

#[test]
fn ast_display_forms() {
    assert_eq!(AST::Hide(1, s("bg")).to_string(), "hide bg");
    assert_eq!(AST::Jump(1, s("start"), false).to_string(), "jump start");
    assert_eq!(AST::Play(1, s("music"), s("a.ogg")).to_string(), "play music \"a.ogg\"");
    assert_eq!(AST::Stop(1, s("music"), None, None).to_string(), "stop music");
    assert_eq!(AST::GameMechanic(1, s("m")).to_string(), "game_mechanic \"m\"");
    assert_eq!(AST::LLMGenerate(1, s("w"), Some(s("p"))).to_string(), "llm_generate w \"p\"");
    assert_eq!(AST::Comment(1, s(" hi")).to_string(), "# hi");
    assert_eq!(AST::Scene(1, None, s("master")).to_string(), "scene");
    assert_eq!(AST::Init(1, vec![AST::Define(2, s("x = 1"))], -5).to_string(), "init -5:\n    define x = 1");
    assert_eq!(AST::Error.to_string(), "");
}

#[test]
fn set_index_moves_the_location() {
    let mut a = AST::Show(3, s("x"));
    a.set_index(7);
    assert_eq!(a.index(), 7);
    assert_eq!(a, AST::Show(7, s("x")));
}

#[test]
fn path_elision() {
    assert_eq!(elide_filename("/home/me/game/script.rpy", "/home/me/:"), "game/script.rpy");
    assert_eq!(elide_filename("/srv/a.rpy", "/home/:x/"), "/srv/a.rpy");
    assert_eq!(elide_filename("/home/a.rpy", "malformed"), "/home/a.rpy");
    assert_eq!(elide_filename("/home/a.rpy", "a:b:c"), "/home/a.rpy");
    assert_eq!(elide_filename("/home/a.rpy", "/home:~"), "~/a.rpy");
}

#[test]
fn narration_reads_back_on_consecutive_lines() {
    let said = vec![AST::Say(7, None, s("a b")), AST::Say(9, None, s("c # not a comment"))];
    let printed = ASTVec(&said).to_string();
    assert_eq!(printed, "\"a b\"\n\"c # not a comment\"");
    let (ast, errors) = parse(&printed).unwrap();
    assert!(errors.is_empty());
    assert_eq!(ast, vec![AST::Say(1, None, s("a b")), AST::Say(2, None, s("c # not a comment"))]);
}

#[test]
fn quote_in_text_does_not_read_back() {
    let (ast, _) = parse("'a \"q\"'\n").unwrap();
    assert_eq!(ast, vec![AST::Say(1, None, s("a \"q\""))]);
    let printed = ASTVec(&ast).to_string();
    let (again, _) = parse(&printed).unwrap();
    assert_ne!(again, ast);
}
