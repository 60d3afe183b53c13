use baml::ast::{ASTNode, Command};
use baml::container::{containerize, join_all};
use baml::parser::{parse, parse_desugared, ParseCommandErr};
use baml::preprocess::{desugar_slfcalls, get_metadata, preprocess};
use baml::scan::{auto_escape, AutoEscape};

fn s(x: &str) -> String {
    x.to_string()
}

fn call(n: &ASTNode) -> &Command {
    match n {
        ASTNode::CommandCall(c) => c,
        ASTNode::Text(t) => panic!("expected a command, found text {:?}", t),
    }
}

fn text(n: &ASTNode) -> &str {
    match n {
        ASTNode::Text(t) => t.as_str(),
        ASTNode::CommandCall(c) => panic!("expected text, found command {:?}", c.cmd),
    }
}

#[test]
fn bare_command() {
    let ast = parse(s("[cmd]")).unwrap();
    assert_eq!(ast.nodes.len(), 1);
    let c = call(&ast.nodes[0]);
    assert_eq!(c.cmd, "cmd");
    assert_eq!(c.backend, None);
    assert!(c.attributes.is_empty());
    assert!(c.arguments.is_empty());
}

#[test]
fn three_arguments() {
    let ast = parse(s("[cmd a;b;c]")).unwrap();
    let c = call(&ast.nodes[0]);
    assert_eq!(c.arguments.len(), 3);
    assert_eq!(text(&c.arguments[0]), "a");
    assert_eq!(text(&c.arguments[1]), "b");
    assert_eq!(text(&c.arguments[2]), "c");
}

#[test]
fn attributes_then_argument() {
    let ast = parse(s("[cmd{x=1;y=2} a]")).unwrap();
    let c = call(&ast.nodes[0]);
    assert_eq!(c.cmd, "cmd");
    assert_eq!(c.attributes, vec![(s("x"), s("1")), (s("y"), s("2"))]);
    assert_eq!(c.arguments.len(), 1);
    assert_eq!(text(&c.arguments[0]), "a");
}

#[test]
fn attribute_values_are_trimmed_and_entries_without_eq_dropped() {
    let ast = parse(s("[cmd{ k = v w ; junk; e=}]")).unwrap();
    let c = call(&ast.nodes[0]);
    assert_eq!(c.attributes, vec![(s("k"), s("v w")), (s("e"), s(""))]);
    assert!(c.arguments.is_empty());
}

#[test]
fn backend_qualifier() {
    let ast = parse(s("[be@cmd a]")).unwrap();
    let c = call(&ast.nodes[0]);
    assert_eq!(c.backend, Some(s("be")));
    assert_eq!(c.cmd, "cmd");
    assert_eq!(text(&c.arguments[0]), "a");
}

#[test]
fn backend_splits_at_last_at_sign() {
    let ast = parse(s("[a@b@cmd]")).unwrap();
    let c = call(&ast.nodes[0]);
    assert_eq!(c.backend, Some(s("a@b")));
    assert_eq!(c.cmd, "cmd");
}

#[test]
fn metadata_line_is_taken_out() {
    let ast = parse(s("! title My Page\nHello")).unwrap();
    assert_eq!(ast.metadata, vec![(s("title"), s("My Page"))]);
    assert_eq!(ast.nodes.len(), 1);
    assert_eq!(text(&ast.nodes[0]), "Hello");
}

#[test]
fn comment_truncates_line() {
    let ast = parse(s("a # comment\nb")).unwrap();
    assert_eq!(ast.nodes.len(), 1);
    assert_eq!(text(&ast.nodes[0]), "a \nb");
}

#[test]
fn escaped_hash_is_kept() {
    let ast = parse(s("a \\# still text\nb")).unwrap();
    assert_eq!(text(&ast.nodes[0]), "a \\# still text\nb");
}

#[test]
fn whole_comment_line_becomes_empty() {
    let (meta, body) = preprocess(s("x\n# only a comment\ny")).unwrap();
    assert!(meta.is_empty());
    assert_eq!(body, "x\n\ny");
}

#[test]
fn line_continuation_is_removed() {
    let (_, body) = preprocess(s("ab\\\ncd")).unwrap();
    assert_eq!(body, "abcd");
}

#[test]
fn unmatched_close_bracket() {
    assert_eq!(parse(s("a]b")).unwrap_err(), ParseCommandErr::UnmatchedCloseDelimiter);
    assert_eq!(parse(s("[a]]")).unwrap_err(), ParseCommandErr::UnmatchedCloseDelimiter);
    assert_eq!(parse(s("][")).unwrap_err(), ParseCommandErr::UnmatchedCloseDelimiter);
}

#[test]
fn unmatched_open_bracket() {
    assert_eq!(parse(s("[a")).unwrap_err(), ParseCommandErr::UnmatchedOpenDelimiter);
    assert_eq!(parse(s("[a [b]")).unwrap_err(), ParseCommandErr::UnmatchedOpenDelimiter);
}

#[test]
fn escaped_brackets_are_text() {
    let ast = parse(s("\\[x\\]")).unwrap();
    assert_eq!(ast.nodes.len(), 1);
    assert_eq!(text(&ast.nodes[0]), "\\[x\\]");
}

#[test]
fn empty_body() {
    assert_eq!(parse(s("[]")).unwrap_err(), ParseCommandErr::EmptyBody);
}

#[test]
fn command_is_not_identifier() {
    assert_eq!(parse(s("[[a] b]")).unwrap_err(), ParseCommandErr::CommandIsNotIdentifier);
    assert_eq!(parse(s("[ x]")).unwrap_err(), ParseCommandErr::CommandIsNotIdentifier);
    assert_eq!(parse(s("[x@]")).unwrap_err(), ParseCommandErr::CommandIsNotIdentifier);
}

#[test]
fn malformed_metadata() {
    assert_eq!(parse(s("!key")).unwrap_err(), ParseCommandErr::MalformedMetadataLine);
    assert_eq!(parse(s("!key   ")).unwrap_err(), ParseCommandErr::MalformedMetadataLine);
    assert_eq!(get_metadata(s("!key")).unwrap_err(), ParseCommandErr::MalformedMetadataLine);
}

#[test]
fn nested_command_argument() {
    let ast = parse(s("x [b y [i z] w] v")).unwrap();
    assert_eq!(ast.nodes.len(), 3);
    assert_eq!(text(&ast.nodes[0]), "x ");
    assert_eq!(text(&ast.nodes[2]), " v");
    let b = call(&ast.nodes[1]);
    assert_eq!(b.cmd, "b");
    assert_eq!(b.arguments.len(), 3);
    assert_eq!(text(&b.arguments[0]), "y ");
    assert_eq!(call(&b.arguments[1]).cmd, "i");
    assert_eq!(text(&call(&b.arguments[1]).arguments[0]), "z");
    assert_eq!(text(&b.arguments[2]), " w");
}

#[test]
fn escaped_space_keeps_leading_whitespace() {
    let ast = parse(s("[cmd \\  a]")).unwrap();
    let c = call(&ast.nodes[0]);
    assert_eq!(text(&c.arguments[0]), " a");
}

#[test]
fn escaped_semicolon_does_not_split() {
    let ast = parse(s("[cmd a\\;b]")).unwrap();
    let c = call(&ast.nodes[0]);
    assert_eq!(c.arguments.len(), 1);
    assert_eq!(text(&c.arguments[0]), "a\\;b");
}

#[test]
fn single_line_call_sugar() {
    assert_eq!(desugar_slfcalls(s("x\n.b bold\ny")), "x\n[b bold]\ny");
    let ast = parse(s(".b bold")).unwrap();
    let c = call(&ast.nodes[0]);
    assert_eq!(c.cmd, "b");
    assert_eq!(text(&c.arguments[0]), "bold");
}

#[test]
fn parse_desugared_keeps_dot_lines() {
    let nodes = parse_desugared(s(".b x")).unwrap();
    assert_eq!(nodes.len(), 1);
    assert_eq!(text(&nodes[0]), ".b x");
}

#[test]
fn metadata_of_stripped_body_is_empty() {
    let src = s("! title T\n!author  A\nbody # c\nx\\\ny");
    let (meta, body) = preprocess(src.clone()).unwrap();
    assert_eq!(meta.len(), 2);
    assert_eq!(get_metadata(src).unwrap().len(), 2);
    assert!(get_metadata(body).unwrap().is_empty());
}

#[test]
fn later_metadata_value_is_listed_last() {
    let meta = get_metadata(s("!a 1\n!a 2")).unwrap();
    assert_eq!(meta, vec![(s("a"), s("1")), (s("a"), s("2"))]);
}

#[test]
fn containerize_then_join_gives_input_back() {
    let chars: Vec<char> = "a[b[c]d]e\\[f".chars().collect();
    let toks = auto_escape(&chars);
    let elems = containerize(&toks).unwrap();
    assert_eq!(elems.len(), 3);
    assert_eq!(join_all(&elems, (false, '['), (false, ']')), toks);
}

#[test]
fn containerize_flags_unmatched() {
    let toks = auto_escape(&"a]".chars().collect());
    assert_eq!(containerize(&toks).unwrap_err(), ParseCommandErr::UnmatchedCloseDelimiter);
    let toks = auto_escape(&"[[a]".chars().collect());
    assert_eq!(containerize(&toks).unwrap_err(), ParseCommandErr::UnmatchedOpenDelimiter);
}

#[test]
fn scanner_pairs_escapes() {
    let toks = auto_escape(&"a\\[b\\".chars().collect());
    assert_eq!(toks, vec![(false, 'a'), (true, '['), (false, 'b'), (false, '\\')]);
}

#[test]
fn lazy_scanner_hands_out_tokens() {
    let mut sc = AutoEscape::new("a\\[b\\".chars().collect());
    assert_eq!(sc.next(), Some((false, 'a')));
    assert_eq!(sc.next(), Some((true, '[')));
    assert_eq!(sc.next(), Some((false, 'b')));
    assert_eq!(sc.next(), Some((false, '\\')));
    assert_eq!(sc.next(), None);
    assert_eq!(sc.next(), None);
}

#[test]
fn unicode_whitespace_is_trimmed() {
    let ast = parse(s("[cmd{\u{a0}k\u{2003}=\u{3000}v\u{a0}}\u{a0}x]")).unwrap();
    let c = call(&ast.nodes[0]);
    assert_eq!(c.attributes, vec![(s("k"), s("v"))]);
    assert_eq!(text(&c.arguments[0]), "x");
}
