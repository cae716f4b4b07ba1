//! Reading manifests: the lexer, the parser, evaluation and the graph.

use shuriken::disk::MemDisk;
use shuriken::error::Error;
use shuriken::eval::{phony_rule, root_scope, EvalString, MapEnv, Scopes};
use shuriken::lexer::{Lexer, Token};
use shuriken::parse::{ManifestParser, ParserOptions, PhonyCycleAction};
use shuriken::state::{console_pool, default_pool, EdgeId, State};

fn tokens(input: &str) -> Vec<Token> {
    let mut lexer = Lexer::new("input".to_string(), input.as_bytes());
    let mut out = Vec::new();
    loop {
        let t = lexer.read_token();
        out.push(t);
        if t == Token::Eof || t == Token::Error {
            break;
        }
    }
    out
}

#[test]
fn empty_input() {
    assert_eq!(tokens(""), vec![Token::Eof]);
}

#[test]
fn comments_are_skipped() {
    assert_eq!(tokens("# comment\n"), vec![Token::Eof]);
    assert_eq!(tokens("   # indented comment\n"), vec![Token::Eof]);
    // A comment without a trailing newline cannot match, so the '#' is an
    // error at column 0 (matching ninja).
    assert_eq!(tokens("# no newline"), vec![Token::Error]);
}

#[test]
fn keywords_and_idents() {
    assert_eq!(
        tokens("build rule pool default include subninja\n"),
        vec![
            Token::Build,
            Token::Rule,
            Token::Pool,
            Token::Default,
            Token::Include,
            Token::Subninja,
            Token::Newline,
            Token::Eof
        ]
    );
    // Longest-match: `builder` is an identifier, not `build` + `er`.
    assert_eq!(tokens("builder\n"), vec![Token::Ident, Token::Newline, Token::Eof]);
}

#[test]
fn punctuation() {
    assert_eq!(
        tokens("a: b | c || d |@ e\n"),
        vec![
            Token::Ident,
            Token::Colon,
            Token::Ident,
            Token::Pipe,
            Token::Ident,
            Token::Pipe2,
            Token::Ident,
            Token::PipeAt,
            Token::Ident,
            Token::Newline,
            Token::Eof
        ]
    );
}

#[test]
fn indent_vs_newline() {
    // Trailing spaces before a newline lex as NEWLINE, not INDENT.
    assert_eq!(tokens("   \n"), vec![Token::Newline, Token::Eof]);
    assert_eq!(
        tokens("  x\n"),
        vec![Token::Indent, Token::Ident, Token::Newline, Token::Eof]
    );
}

#[test]
fn tabs_are_rejected() {
    let mut lexer = Lexer::new("input".to_string(), b"\tfoo");
    assert_eq!(lexer.read_token(), Token::Error);
    assert_eq!(lexer.describe_last_error(), "tabs are not allowed, use spaces");
}

fn read_value(input: &str) -> Result<String, Error> {
    let mut lexer = Lexer::new("input".to_string(), input.as_bytes());
    let mut eval = EvalString::new();
    lexer.read_var_value(&mut eval)?;
    Ok(eval.serialize())
}

fn read_path(input: &str) -> Result<String, Error> {
    let mut lexer = Lexer::new("input".to_string(), input.as_bytes());
    let mut eval = EvalString::new();
    lexer.read_path(&mut eval)?;
    Ok(eval.serialize())
}

#[test]
fn var_values() {
    assert_eq!(read_value("plain text\n").unwrap(), "[plain text]");
    assert_eq!(read_value("$foo\n").unwrap(), "[$foo]");
    assert_eq!(read_value("${foo.bar}\n").unwrap(), "[$foo.bar]");
    assert_eq!(read_value("a$$b\n").unwrap(), "[a$b]");
    assert_eq!(read_value("a$ b\n").unwrap(), "[a b]");
    assert_eq!(read_value("a$:b\n").unwrap(), "[a:b]");
    assert_eq!(read_value("a: b|c\n").unwrap(), "[a: b|c]");
    // Line continuation swallows the newline and following indentation.
    assert_eq!(read_value("a$\n   b\n").unwrap(), "[ab]");
    assert_eq!(read_value("a$\r\n   b\r\n").unwrap(), "[ab]");
}

#[test]
fn bad_escapes() {
    let e = read_value("a$*b\n").unwrap_err().message();
    assert!(e.contains("bad $-escape"), "{e}");
    let e = read_value("a").unwrap_err().message();
    assert!(e.contains("unexpected EOF"), "{e}");
}

#[test]
fn paths_stop_at_delimiters() {
    assert_eq!(read_path("foo bar\n").unwrap(), "[foo]");
    assert_eq!(read_path("foo:bar\n").unwrap(), "[foo]");
    assert_eq!(read_path("foo|bar\n").unwrap(), "[foo]");
    assert_eq!(read_path("fo$ o bar\n").unwrap(), "[fo o]");
    assert_eq!(read_path("fo$:o bar\n").unwrap(), "[fo:o]");
    // An immediate delimiter yields an empty path.
    assert_eq!(read_path(": foo\n").unwrap(), "");
}

#[test]
fn error_message_format() {
    let mut lexer = Lexer::new("build.ninja".to_string(), b"x = 1\nbuild y\n");
    // Position the lexer at the second line's 'build'.
    lexer.read_token();
    lexer.read_token();
    lexer.read_token();
    lexer.read_token();
    let t = lexer.read_token();
    assert_eq!(t, Token::Build);
    let msg = lexer.error_string("oops");
    assert!(msg.starts_with("build.ninja:2: oops\n"), "{msg}");
}

#[test]
fn eval_string_basics() {
    let mut e = EvalString::new();
    assert!(e.is_empty());
    e.add_text("foo");
    e.add_text("bar");
    e.add_var("baz");
    assert_eq!(e.serialize(), "[foobar][$baz]");
    assert_eq!(e.unparse(), "foobar${baz}");

    let mut env = MapEnv::new();
    env.insert("baz".to_string(), "BAZ".to_string());
    assert_eq!(e.evaluate(&mut env), "foobarBAZ");
}

#[test]
fn scope_chain() {
    let mut s = Scopes::new();
    s.add_binding(root_scope(), "a".to_string(), "root-a".to_string());
    s.add_binding(root_scope(), "b".to_string(), "root-b".to_string());
    let child = s.new_child(root_scope());
    s.add_binding(child, "b".to_string(), "child-b".to_string());
    assert_eq!(s.lookup_variable(child, "a"), "root-a");
    assert_eq!(s.lookup_variable(child, "b"), "child-b");
    assert_eq!(s.lookup_variable(root_scope(), "b"), "root-b");
    assert_eq!(s.lookup_variable(child, "nope"), "");
}

#[test]
fn phony_rule_exists() {
    let s = Scopes::new();
    assert_eq!(s.lookup_rule(root_scope(), "phony"), Some(phony_rule()));
    assert!(s.rule(phony_rule()).is_phony());
}

fn quiet() -> ParserOptions {
    ParserOptions { phony_cycle_action: PhonyCycleAction::Warn, quiet: true }
}

fn parse(text: &str) -> Result<State, Error> {
    let disk = MemDisk::new();
    let mut state = State::new();
    let mut p = ManifestParser::new(quiet());
    p.parse_text(&mut state, &disk, "input", text.as_bytes())?;
    Ok(state)
}

fn parse_error(text: &str) -> String {
    match parse(text) {
        Ok(_) => panic!("parsed: {text:?}"),
        Err(e) => e.message(),
    }
}

#[test]
fn empty_manifest() {
    let s = parse("").unwrap();
    assert_eq!(s.edges().len(), 0);
}

#[test]
fn simple_rule_and_edge() {
    let s = parse("rule cat\n  command = cat $in > $out\n\nbuild out: cat in1 in2\n").unwrap();
    assert_eq!(s.edges().len(), 1);
    let e = EdgeId(0);
    assert_eq!(s.edge_command(e), "cat in1 in2 > out");
    assert_eq!(s.edge(e).inputs().len(), 2);
    assert_eq!(s.edge(e).outputs().len(), 1);
}

#[test]
fn variables_and_scoping() {
    let s = parse(
        "cflags = -Wall\n\
         rule cc\n  command = gcc $cflags -c $in -o $out\n\n\
         build a.o: cc a.c\n\
         build b.o: cc b.c\n  cflags = -O2\n",
    )
    .unwrap();
    assert_eq!(s.edge_command(EdgeId(0)), "gcc -Wall -c a.c -o a.o");
    assert_eq!(s.edge_command(EdgeId(1)), "gcc -O2 -c b.c -o b.o");
}

#[test]
fn rule_binding_sees_edge_scope() {
    // `$extra` is defined on the edge and referenced from the rule.
    let s = parse(
        "rule cc\n  command = gcc $extra -c $in -o $out\n\n\
         build a.o: cc a.c\n  extra = -g\n",
    )
    .unwrap();
    assert_eq!(s.edge_command(EdgeId(0)), "gcc -g -c a.c -o a.o");
}

#[test]
fn implicit_and_order_only() {
    let s = parse(
        "rule cat\n  command = cat $in > $out\n\n\
         build out | imp_out: cat in | imp_in || oo_in\n",
    )
    .unwrap();
    let e = s.edge(EdgeId(0));
    assert_eq!(e.outputs().len(), 2);
    assert_eq!(e.implicit_outs(), 1);
    assert_eq!(e.inputs().len(), 3);
    assert_eq!(e.implicit_deps(), 1);
    assert_eq!(e.order_only_deps(), 1);
    assert_eq!(e.explicit_deps(), 1);
    assert!(e.is_implicit(1));
    assert!(e.is_order_only(2));
    // $in only contains explicit inputs.
    assert_eq!(s.edge_command(EdgeId(0)), "cat in > out");
}

#[test]
fn validations() {
    let s = parse(
        "rule cat\n  command = cat $in > $out\n\n\
         build out: cat in |@ validate\n",
    )
    .unwrap();
    assert_eq!(s.edge(EdgeId(0)).validations().len(), 1);
    let v = s.lookup_node("validate").unwrap();
    assert_eq!(s.node(v).validation_out_edges().len(), 1);
}

#[test]
fn shell_escaping_in_command() {
    let s = parse("rule cat\n  command = cat $in > $out\n\nbuild out put: cat in$ put\n").unwrap();
    assert_eq!(s.edge_command(EdgeId(0)), "cat 'in put' > out put");
}

#[test]
fn pools() {
    let s = parse(
        "pool link_pool\n  depth = 3\n\n\
         rule link\n  command = ld $in -o $out\n  pool = link_pool\n\n\
         build out: link in\n",
    )
    .unwrap();
    let p = s.lookup_pool("link_pool").unwrap();
    assert_eq!(s.pool(p).depth(), 3);
    assert_eq!(s.edge(EdgeId(0)).pool(), p);
}

#[test]
fn default_targets() {
    let s = parse(
        "rule cat\n  command = cat $in > $out\n\n\
         build a: cat i\nbuild b: cat i\ndefault b\n",
    )
    .unwrap();
    assert_eq!(s.defaults().len(), 1);
    assert_eq!(s.node(s.defaults()[0]).path(), "b");
}

#[test]
fn errors() {
    let cases = [
        ("build\n", "expected path"),
        ("build x: nope\n", "unknown build rule 'nope'"),
        ("rule r\n", "expected 'command =' line"),
        ("rule r\n  command = x\n  bogus = y\n", "unexpected variable 'bogus'"),
        ("pool p\n", "expected 'depth =' line"),
        ("pool p\n  depth = -1\n", "invalid pool depth"),
        ("default nonexistent\n", "unknown target 'nonexistent'"),
        (
            "rule r\n  command = x\n  rspfile = y\n",
            "rspfile and rspfile_content need to be both specified",
        ),
        ("x = 1\nx$ = 2\n", "expected '=', got"),
    ];
    for (text, expected) in cases {
        let err = parse_error(text);
        assert!(
            err.contains(expected),
            "for {text:?}: expected {expected:?}, got {err}"
        );
    }
}

#[test]
fn duplicate_rule_and_pool() {
    let e = parse_error("rule r\n  command = x\nrule r\n  command = y\n");
    assert!(e.contains("duplicate rule 'r'"), "{e}");
    let e = parse_error("pool p\n  depth = 1\npool p\n  depth = 2\n");
    assert!(e.contains("duplicate pool 'p'"), "{e}");
}

#[test]
fn multiple_rules_generate() {
    let e = parse_error(
        "rule cat\n  command = cat $in > $out\n\nbuild a: cat i\nbuild a: cat j\n",
    );
    assert!(e.contains("multiple rules generate a"), "{e}");
}

#[test]
fn include_and_subninja() {
    let mut disk = MemDisk::new();
    disk.create("sub.ninja", b"var = sub\nbuild sub_out: cat sub_in\n");
    disk.create("inc.ninja", b"var = inc\n");
    let mut state = State::new();
    let mut p = ManifestParser::new(quiet());
    p.parse_text(
        &mut state,
        &disk,
        "input",
        b"rule cat\n  command = cat $in > $out\nvar = top\nsubninja sub.ninja\ninclude inc.ninja\n",
    )
    .unwrap();
    // subninja gets a child scope, so it cannot change the parent's var;
    // include shares the scope, so it can.
    assert_eq!(state.scopes.lookup_variable(root_scope(), "var"), "inc");
    assert!(state.lookup_node("sub_out").is_some());
}

#[test]
fn missing_include_reports_position() {
    let disk = MemDisk::new();
    let mut state = State::new();
    let mut p = ManifestParser::new(quiet());
    let e = p
        .parse_text(&mut state, &disk, "input", b"include missing.ninja\n")
        .unwrap_err()
        .message();
    assert!(e.contains("loading 'missing.ninja'"), "{e}");
}

#[test]
fn phony_self_cycle_is_filtered() {
    let disk = MemDisk::new();
    let mut state = State::new();
    let mut p = ManifestParser::new(ParserOptions::default());
    p.parse_text(&mut state, &disk, "input", b"build a: phony a\n").unwrap();
    let warnings = p.take_warnings();
    assert_eq!(state.edge(EdgeId(0)).inputs().len(), 0);
    assert!(warnings[0].contains("names itself as an input"));
}

#[test]
fn a_dropped_self_reference_leaves_no_trace() {
    let s = parse("build a: phony a\n").unwrap();
    let a = s.lookup_node("a").unwrap();
    assert!(s.node(a).out_edges().is_empty());
    assert_eq!(s.root_nodes().unwrap(), vec![a]);

    let s = parse("build a: phony || a\n").unwrap();
    let e = s.edge(EdgeId(0));
    assert_eq!((e.inputs().len(), e.explicit_deps(), e.order_only_deps()), (0, 0, 0));

    let s = parse("build a: phony b || a\n").unwrap();
    let e = s.edge(EdgeId(0));
    assert_eq!((e.inputs().len(), e.explicit_deps(), e.order_only_deps()), (1, 1, 0));
    assert!(!e.is_order_only(0));

    let s = parse("build a: phony b a || c a\n").unwrap();
    let e = s.edge(EdgeId(0));
    assert_eq!((e.inputs().len(), e.explicit_deps(), e.order_only_deps()), (2, 1, 1));
    assert!(!e.is_order_only(0) && e.is_order_only(1));
    let b = s.lookup_node("b").unwrap();
    assert_eq!(s.node(b).out_edges(), &[EdgeId(0)]);
}

#[test]
fn values_end_behind_a_line_feed() {
    let input = b"a b\nrest";
    let mut lexer = Lexer::new("input".to_string(), input);
    let mut value = EvalString::new();
    lexer.read_var_value(&mut value).unwrap();
    assert_eq!(lexer.offset(), 4);
    // What cannot be read is not passed over.
    assert!(lexer.read_var_value(&mut EvalString::new()).is_err());
    assert_eq!(lexer.offset(), 4);
    assert!(lexer.read_path(&mut EvalString::new()).is_err());
    assert_eq!(lexer.offset(), 4);
}

#[test]
fn dyndep_must_be_an_input() {
    let e = parse_error("rule r\n  command = x\n  dyndep = dd\n\nbuild out: r in\n");
    assert!(e.contains("dyndep 'dd' is not an input"), "{e}");

    let s = parse("rule r\n  command = x\n  dyndep = dd\n\nbuild out: r in | dd\n").unwrap();
    let e = s.edge(EdgeId(0));
    assert!(e.dyndep().is_some());
    assert!(s.node(e.dyndep().unwrap()).dyndep_pending);
}

#[test]
fn nodes_are_interned() {
    let mut s = State::new();
    let a = s.get_node("a.txt", 0);
    let b = s.get_node("a.txt", 0);
    assert_eq!(a, b);
    assert_eq!(s.nodes().len(), 1);
}

#[test]
fn duplicate_output_is_an_error() {
    let mut s = State::new();
    let e1 = s.add_edge(phony_rule(), root_scope());
    s.add_out(e1, "out", 0).unwrap();
    let e2 = s.add_edge(phony_rule(), root_scope());
    let err = s.add_out(e2, "out", 0).unwrap_err();
    assert_eq!(err, "multiple rules generate out");
}

#[test]
fn default_pool_is_unlimited() {
    let s = State::new();
    assert!(!s.pool(default_pool()).should_delay_edge());
    assert!(s.pool(console_pool()).should_delay_edge());
    assert_eq!(s.pool(console_pool()).depth(), 1);
}

#[test]
fn manifests_load_through_the_disk() {
    let mut disk = MemDisk::new();
    disk.create("build.ninja", b"rule t\n  command = touch $out\nbuild a: t\n");
    let mut state = State::new();
    let mut p = ManifestParser::new(quiet());
    p.load(&mut state, &disk, "build.ninja").unwrap();
    assert_eq!(state.edge_command(EdgeId(0)), "touch a");

    let mut other = State::new();
    let e = p.load(&mut other, &disk, "none.ninja").unwrap_err();
    assert_eq!(e.message(), "loading 'none.ninja': No such file or directory");
}

#[test]
fn a_later_binding_of_a_rule_wins() {
    let s = parse("rule r\n  command = one\n  command = two $in\n\nbuild o: r i\n").unwrap();
    assert_eq!(s.edge_command(EdgeId(0)), "two i");
}

#[test]
fn rule_variables_that_name_each_other_are_a_cycle() {
    let s = parse("rule r\n  command = $depfile\n  depfile = $command\n\nbuild o: r i\n").unwrap();
    assert!(s.edge_command_checked(EdgeId(0)).is_err());
}

#[test]
fn a_required_version_that_is_too_new_is_fatal() {
    match parse("ninja_required_version = 99.0\n") {
        Err(Error::Fatal(_)) => {}
        Err(e) => panic!("{}", e.message()),
        Ok(_) => panic!("accepted"),
    }
}

#[test]
fn a_broken_statement_leaves_what_stands_before_it() {
    let read = |text: &str| {
        let mut s = State::new();
        let mut parser = ManifestParser::new(ParserOptions::default());
        let text = format!("rule r\n  command = c\nbuild a: r b\n{text}");
        parser
            .parse_text(&mut s, &MemDisk::new(), "build.ninja", text.as_bytes())
            .unwrap_err();
        s
    };
    // An edge in an unknown pool is taken back.
    let s = read("build c: r d\n  pool = nowhere\n");
    assert_eq!(s.edge_count(), 1);
    assert!(s.lookup_node("c").is_none());
    // The outputs before the one that is taken are connected.
    let s = read("build x a: r d\n");
    assert_eq!(s.edge_count(), 2);
    let x = s.lookup_node("x").unwrap();
    assert_eq!(s.edge(EdgeId(1)).outputs(), &[x]);
    assert!(s.lookup_node("d").is_none());
    // So are the defaults before an unknown one.
    let s = read("default a nowhere\n");
    assert_eq!(s.defaults(), &[s.lookup_node("a").unwrap()]);
}
