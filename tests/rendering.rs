use baml::ast::{ASTNode, Command, AST};
use baml::backend::{handle_node, Backend, BasicCommandType};
use baml::engine::TemplateHost;
use baml::html::{meta_vars, BackendHtml, DomNode, HtmlTag};
use baml::parser::parse;
use baml::split::str_split_keep_sep;
use baml::template::parse_args;

struct NoHost;

impl TemplateHost for NoHost {
    fn list_dir(&mut self, _base: &String, _dir: &String) -> Result<Vec<String>, String> {
        Err("no directories here".to_string())
    }

    fn file_vars(&mut self, _base: &String, _dir: &String, _name: &String) -> Vec<(String, String)> {
        Vec::new()
    }

    fn run_command(&mut self, _base: &String, _cmd: &String, _args: &Vec<String>) -> Result<String, String> {
        Err("no commands here".to_string())
    }
}

fn cmd(backend: Option<&str>, name: &str, args: Vec<ASTNode>) -> Command {
    Command {
        backend: backend.map(|b| b.to_string()),
        cmd: name.to_string(),
        attributes: Vec::new(),
        arguments: args,
    }
}

#[test]
fn split_keeps_separators() {
    assert_eq!(str_split_keep_sep("a;b", ';'), vec!["a", ";", "b"]);
    assert_eq!(str_split_keep_sep(";a", ';'), vec!["", ";", "a"]);
    assert_eq!(str_split_keep_sep("a;", ';'), vec!["a", ";"]);
    assert_eq!(str_split_keep_sep("abc", ';'), vec!["abc"]);
    assert!(str_split_keep_sep("", ';').is_empty());
}

#[test]
fn inline_macro_arguments() {
    let args: Vec<char> = "(a (b) \\) c) rest".chars().collect();
    assert_eq!(parse_args(&args), Some("a (b) \\) c".chars().collect()));
    assert_eq!(parse_args(&"(never closed".chars().collect()), None);
    assert_eq!(parse_args(&"x(y)".chars().collect()), None);
}

#[test]
fn basic_command_names() {
    assert_eq!(BasicCommandType::from_name("b"), Some(BasicCommandType::Bold));
    assert_eq!(BasicCommandType::from_name("img"), Some(BasicCommandType::Image));
    assert_eq!(BasicCommandType::from_name("sec"), Some(BasicCommandType::Section(0)));
    assert_eq!(BasicCommandType::from_name("sec12"), Some(BasicCommandType::Section(12)));
    assert_eq!(BasicCommandType::from_name("sec1x"), None);
    assert_eq!(BasicCommandType::from_name("bold"), None);
}

#[test]
fn nodes_are_routed_by_backend() {
    let mut b = BackendHtml::new(String::new(), Vec::new());
    assert_eq!(b.backend_id(), "html");
    let other = ASTNode::CommandCall(cmd(Some("latex"), "b", vec![]));
    assert!(handle_node(&mut b, other).is_none());
    let plain = ASTNode::CommandCall(cmd(None, "b", vec![ASTNode::Text("x".to_string())]));
    let n = handle_node(&mut b, plain).unwrap();
    assert_eq!(n.to_html(), "<b>x</b>");
    let tagged = ASTNode::CommandCall(cmd(Some("html"), "tag.span", vec![]));
    assert_eq!(handle_node(&mut b, tagged).unwrap().to_html(), "<span></span>");
    let untagged = ASTNode::CommandCall(cmd(Some("html"), "span", vec![]));
    assert!(handle_node(&mut b, untagged).is_none());
}

#[test]
fn text_gets_line_breaks() {
    let mut b = BackendHtml::new(String::new(), Vec::new());
    let n = b.emit_text("a\nb".to_string());
    assert_eq!(n, DomNode::Text("a<br />\nb".to_string()));
    assert!(n.child_nodes().is_empty());
}

#[test]
fn tags_render_attributes_and_children() {
    let tag = DomNode::Tag(HtmlTag {
        tag_name: "a".to_string(),
        attributes: vec![("href".to_string(), "x\"y".to_string()), ("id".to_string(), "z".to_string())],
        child_nodes: vec![DomNode::Text("one".to_string()), DomNode::Text("two".to_string())],
    });
    assert_eq!(tag.to_html(), "<a href=\"x\\\"y\" id=\"z\">one two</a>");
    assert_eq!(tag.child_nodes().len(), 2);
}

#[test]
fn node_from_command_keeps_name_and_attributes() {
    let mut b = BackendHtml::new(String::new(), Vec::new());
    let mut c = cmd(None, "p", vec![ASTNode::Text("t".to_string())]);
    c.attributes.push(("class".to_string(), "c".to_string()));
    let n = b.node_from_command(c);
    assert_eq!(n.to_html(), "<p class=\"c\">t</p>");
}

#[test]
fn special_vars_from_metadata() {
    let mut b = BackendHtml::new(String::new(), Vec::new());
    b.set_special_vars("body".to_string(), &vec![("title".to_string(), "T".to_string())]);
    assert_eq!(
        b.special_vars,
        vec![("!title".to_string(), "T".to_string()), ("content".to_string(), "body".to_string())]
    );
}

#[test]
fn page_is_compiled_through_template() {
    let ast = parse("! title Home\nhi [b there]".to_string()).unwrap();
    let mut b = BackendHtml::new("<h1>%{!title}</h1>%{content}".to_string(), Vec::new());
    let (page, diags) = b.compile_ast(ast, &mut NoHost);
    assert_eq!(page, "<h1>Home</h1>hi <b>there</b>");
    assert!(diags.is_empty());
    let empty = AST { metadata: Vec::new(), nodes: Vec::new() };
    let (page, _) = b.compile_ast(empty, &mut NoHost);
    assert_eq!(page, "<h1></h1>");
}

#[test]
fn basic_command_names_read_back() {
    assert_eq!(BasicCommandType::Section(0).name(), "sec");
    assert_eq!(BasicCommandType::Section(12).name(), "sec12");
    assert_eq!(BasicCommandType::HorSpace.name(), "hspace");
    for c in [
        BasicCommandType::Bold,
        BasicCommandType::Italic,
        BasicCommandType::Section(7),
        BasicCommandType::VertSpace,
        BasicCommandType::Image,
    ] {
        assert_eq!(BasicCommandType::from_name(&c.name()), Some(c));
    }
}

#[test]
fn metadata_keys_get_bang_prefix() {
    let v = meta_vars(&vec![("a".to_string(), "1".to_string())]);
    assert_eq!(v, vec![("!a".to_string(), "1".to_string())]);
}

#[test]
fn handle_node_passes_targeted_commands_on() {
    let mut b = BackendHtml::new(String::new(), Vec::new());
    let n = handle_node(&mut b, ASTNode::CommandCall(cmd(Some("html"), "tag.em", vec![ASTNode::Text("e".to_string())])));
    assert_eq!(n.unwrap().to_html(), "<em>e</em>");
    let t = handle_node(&mut b, ASTNode::Text("a\nb".to_string()));
    assert_eq!(t, Some(DomNode::Text("a<br />\nb".to_string())));
}
