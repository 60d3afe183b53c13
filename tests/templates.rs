use baml::engine::{parse_forfiles_args, render_forfiles, TemplateEngine, TemplateHost};
use baml::shell::{matches_pattern, parse_cmd_and_args, split_whitespace};
use baml::template::{expand_alt, expand_perc, expand_setext};

struct FakeHost {
    files: Vec<(String, Vec<(String, String)>)>,
    commands: Vec<(String, Vec<String>)>,
}

impl TemplateHost for FakeHost {
    fn list_dir(&mut self, _base: &String, _dir: &String) -> Result<Vec<String>, String> {
        Ok(self.files.iter().map(|f| f.0.clone()).collect())
    }

    fn file_vars(&mut self, _base: &String, _dir: &String, name: &String) -> Vec<(String, String)> {
        self.files.iter().find(|f| &f.0 == name).map(|f| f.1.clone()).unwrap_or_default()
    }

    fn run_command(&mut self, _base: &String, cmd: &String, args: &Vec<String>) -> Result<String, String> {
        self.commands.push((cmd.clone(), args.clone()));
        Ok(format!("<{}>", args.join(",")))
    }
}

fn host() -> FakeHost {
    FakeHost { files: Vec::new(), commands: Vec::new() }
}

fn chars(x: &str) -> Vec<char> {
    x.chars().collect()
}

fn engine(template: &str, vars: &[(&str, &str)]) -> TemplateEngine {
    let mut e = TemplateEngine::from_string_and_dir(template.to_string(), "/tmp".to_string());
    for (k, v) in vars {
        e.set_var(k.to_string(), v.to_string());
    }
    e
}

#[test]
fn variable_is_substituted() {
    let (out, diags) = engine("%{x}", &[("x", "5")]).run(&mut host());
    assert_eq!(out, "5");
    assert!(diags.is_empty());
}

#[test]
fn unknown_variable_is_empty_with_warning() {
    let (out, diags) = engine("a%{y}b", &[("x", "5")]).run(&mut host());
    assert_eq!(out, "ab");
    assert_eq!(diags.len(), 1);
}

#[test]
fn later_variable_overrides() {
    let (out, _) = engine("%{x}", &[("x", "1"), ("x", "2")]).run(&mut host());
    assert_eq!(out, "2");
}

#[test]
fn braces_inside_variable_name() {
    let (out, _) = engine("%{a{b}c}", &[("a{b}c", "ok")]).run(&mut host());
    assert_eq!(out, "ok");
}

#[test]
fn alt_takes_first_non_empty() {
    assert_eq!(expand_alt(&chars("%alt(::foo:bar)")), chars("foo"));
    assert_eq!(expand_alt(&chars("[%alt(::)]")), chars("[]"));
    let (out, _) = engine("%alt(%{a}:%{b}:z)", &[("b", "bee")]).run(&mut host());
    assert_eq!(out, "bee");
}

#[test]
fn unclosed_run_is_left_alone() {
    let mut h = host();
    let (out, diags) = engine("x %run(echo hi", &[]).run(&mut h);
    assert_eq!(out, "x %run(echo hi");
    assert!(!diags.is_empty());
    assert!(h.commands.is_empty());
}

#[test]
fn run_output_replaces_macro() {
    let mut h = host();
    let (out, diags) = engine("[%run(echo a \"b c\" %{v})]", &[("v", "d")]).run(&mut h);
    assert_eq!(out, "[<a,b c,d>]");
    assert!(diags.is_empty());
    assert_eq!(h.commands, vec![("echo".to_string(), vec!["a".to_string(), "b c".to_string(), "d".to_string()])]);
}

#[test]
fn setext_renames_extension() {
    let (out, bad) = expand_setext(&chars("%setext(html:a/b.md)"));
    assert_eq!(out, chars("a/b.html"));
    assert_eq!(bad, 0);
    let (out, bad) = expand_setext(&chars("<%setext(nocolon)>"));
    assert_eq!(out, chars("<>"));
    assert_eq!(bad, 1);
}

#[test]
fn perc_becomes_percent() {
    assert_eq!(expand_perc(&chars("100%perc and %percent")), chars("100% and %ent"));
    let (out, _) = engine("%perc{x}", &[("x", "5")]).run(&mut host());
    assert_eq!(out, "%{x}");
}

#[test]
fn shell_words() {
    assert_eq!(split_whitespace("a  \"b c\" d\\ e"), vec!["a", "b c", "d e"]);
    assert!(split_whitespace("   ").is_empty());
    let (cmd, args) = parse_cmd_and_args("ls -l x").unwrap();
    assert_eq!(cmd, "ls");
    assert_eq!(args, vec!["-l", "x"]);
    assert!(parse_cmd_and_args("").is_err());
}

#[test]
fn glob_patterns() {
    assert!(matches_pattern("index.html", "*.html"));
    assert!(!matches_pattern("index.md", "*.html"));
    assert!(matches_pattern("post-1.md", "post*"));
    assert!(!matches_pattern("my-post.md", "post*"));
    assert!(matches_pattern("abab", "a*b"));
    assert!(!matches_pattern("ab", "abc"));
}

#[test]
fn forfiles_options() {
    let (opts, warnings) = parse_forfiles_args(&chars("with f:in posts:sort_key %{f}:sort_order desc:exclude_name *.tmp x*"));
    assert_eq!(opts.var.as_deref(), Some("f"));
    assert_eq!(opts.path.as_deref(), Some("posts"));
    assert_eq!(opts.sort_key.as_deref(), Some("%{f}"));
    assert!(opts.descending);
    assert_eq!(opts.exclude, vec!["*.tmp", "x*"]);
    assert!(warnings.is_empty());
    let (_, warnings) = parse_forfiles_args(&chars("in p:sort_order sideways:frobnicate x"));
    assert_eq!(warnings.len(), 2);
}

#[test]
fn forfiles_renders_each_taken_file() {
    let files = vec![
        ("b.md".to_string(), vec![("!title".to_string(), "B".to_string())]),
        ("a.md".to_string(), vec![("!title".to_string(), "A".to_string())]),
        ("c.tmp".to_string(), vec![]),
    ];
    let (opts, _) = parse_forfiles_args(&chars("with f:in posts:exclude_name *.tmp"));
    let out = render_forfiles(&vec![("sep".to_string(), ";".to_string())], &files, &opts, &chars("%{f}=%{!title}%{sep}"));
    assert_eq!(out, chars("b.md=B;a.md=A;"));
    let (sorted, _) = parse_forfiles_args(&chars("with f:in posts:exclude_name *.tmp:sort_key %{f}"));
    let out = render_forfiles(&vec![], &files, &sorted, &chars("%{f} "));
    assert_eq!(out, chars("a.md b.md "));
}

#[test]
fn forfiles_through_engine() {
    let mut h = host();
    h.files = vec![("one".to_string(), vec![]), ("two".to_string(), vec![])];
    let (out, diags) = engine("<%forfiles(with f:in d:sort_key %{f}:sort_order -)%(%{f},%)>", &[]).run(&mut h);
    assert_eq!(out, "<two,one,>");
    assert!(diags.is_empty());
}

#[test]
fn engine_substitutes_its_variables() {
    let e = engine("", &[("who", "world")]);
    let (out, diags) = e.substitute(&"hello %{who}%{nobody}".to_string());
    assert_eq!(out, "hello world");
    assert_eq!(diags.len(), 1);
}

#[test]
fn unclosed_variable_is_left_alone() {
    let (out, diags) = engine("a %{x", &[("x", "5")]).run(&mut host());
    assert_eq!(out, "a %{x");
    assert_eq!(diags.len(), 1);
}

#[test]
fn forfiles_without_path_expands_to_nothing() {
    let (out, diags) = engine("[%forfiles(with f)%(x%)]", &[]).run(&mut host());
    assert_eq!(out, "[]");
    assert_eq!(diags.len(), 1);
}

#[test]
fn setext_rejects_separator_in_extension() {
    let (out, bad) = expand_setext(&chars("[%setext(a/b:c.md)]"));
    assert_eq!(out, chars("[]"));
    assert_eq!(bad, 1);
    let (out, diags) = engine("x%setext(html)y", &[]).run(&mut host());
    assert_eq!(out, "xy");
    assert_eq!(diags.len(), 1);
}

#[test]
fn run_sees_variables_substituted_first() {
    let mut h = host();
    let (out, _) = engine("%run(echo %{v})", &[("v", "a b")]).run(&mut h);
    assert_eq!(out, "<a,b>");
    assert_eq!(h.commands, vec![("echo".to_string(), vec!["a".to_string(), "b".to_string()])]);
}

struct Counting {
    asked: Vec<String>,
}

impl TemplateHost for Counting {
    fn list_dir(&mut self, _b: &String, _d: &String) -> Result<Vec<String>, String> {
        Ok(vec!["a.md".to_string(), "b.tmp".to_string()])
    }
    fn file_vars(&mut self, _b: &String, _d: &String, name: &String) -> Vec<(String, String)> {
        self.asked.push(name.clone());
        Vec::new()
    }
    fn run_command(&mut self, _b: &String, _c: &String, _a: &Vec<String>) -> Result<String, String> {
        Err("none".to_string())
    }
}

#[test]
fn forfiles_asks_for_variables_of_taken_files_only() {
    let mut h = Counting { asked: Vec::new() };
    let (out, _) = engine("%forfiles(with f:in d:exclude_name *.tmp)%(%{f};%)", &[]).run(&mut h);
    assert_eq!(out, "a.md;");
    assert_eq!(h.asked, vec!["a.md".to_string()]);
}

#[test]
fn forfiles_without_end_stays_as_written() {
    let (out, diags) = engine("a %forfiles(in d)%( x", &[]).run(&mut host());
    assert_eq!(out, "a %forfiles(in d)%( x");
    assert_eq!(diags.len(), 1);
    let (out, _) = engine("b %forfiles(in d) x", &[]).run(&mut host());
    assert_eq!(out, "b %forfiles(in d) x");
}

#[test]
fn forfiles_block_vanishes_when_listing_fails_rest_expands() {
    struct Failing;
    impl TemplateHost for Failing {
        fn list_dir(&mut self, _b: &String, _d: &String) -> Result<Vec<String>, String> {
            Err("unreadable".to_string())
        }
        fn file_vars(&mut self, _b: &String, _d: &String, _n: &String) -> Vec<(String, String)> {
            Vec::new()
        }
        fn run_command(&mut self, _b: &String, _c: &String, _a: &Vec<String>) -> Result<String, String> {
            Err("none".to_string())
        }
    }
    let (out, diags) = engine("[%forfiles(in d)%(x%)]%{y}", &[("y", "!")]).run(&mut Failing);
    assert_eq!(out, "[]!");
    assert_eq!(diags.len(), 1);
}

#[test]
fn run_arguments_go_through_pure_passes() {
    let mut h = host();
    let (out, _) = engine("%run(cmd %alt(:z) a\\%perc)", &[]).run(&mut h);
    assert_eq!(out, "<z,a%>");
    assert_eq!(h.commands, vec![("cmd".to_string(), vec!["z".to_string(), "a%".to_string()])]);
}
