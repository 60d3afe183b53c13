//! The HTML backend: commands become tags, text keeps its line breaks, and the rendered
//! content is poured into a page template.
use vstd::prelude::*;
use crate::ast::{AST, ASTNode, Command, opt_view, pairs_view};
use crate::backend::{Backend, targets};
use crate::engine::{TemplateEngine, TemplateHost, no_blocks, pure_passes, run_opener, run_result};
use crate::template::{occurrences, vars_model};
use crate::text::{string_of, chars_of, push_chars};

verus! {

broadcast use vstd::std_specs::vec::group_vec_axioms, vstd::seq::group_seq_axioms;

/// An HTML element.
#[derive(Debug, PartialEq, Eq)]
pub struct HtmlTag {
    pub tag_name: String,
    pub attributes: Vec<(String, String)>,
    pub child_nodes: Vec<DomNode>,
}

/// A node of an HTML tree.
#[derive(Debug, PartialEq, Eq)]
pub enum DomNode {
    Tag(HtmlTag),
    Text(String),
}

impl DomNode {
    /// The children of this node; text has none.
    pub fn child_nodes(&self) -> (r: &[DomNode])
        ensures
            match self {
                DomNode::Text(_) => r@.len() == 0,
                DomNode::Tag(t) => r@ == t.child_nodes@,
            },
    {
        match self {
            DomNode::Text(_) => &[],
            DomNode::Tag(t) => t.child_nodes.as_slice(),
        }
    }
}

/// `s` with every newline preceded by a `<br />` tag.
pub open spec fn with_breaks(s: Seq<char>) -> Seq<char>
    decreases s.len(),
{
    if s.len() == 0 {
        seq![]
    } else if s.last() == '\n' {
        with_breaks(s.drop_last()) + seq!['<', 'b', 'r', ' ', '/', '>', '\n']
    } else {
        with_breaks(s.drop_last()).push(s.last())
    }
}

/// The variables that a rendered page adds for its template: each metadata key prefixed
/// with `!`, then `content`.
pub open spec fn special_model(content: Seq<char>, meta: Seq<(Seq<char>, Seq<char>)>) -> Seq<(Seq<char>, Seq<char>)> {
    bang_model(meta) + seq![
        (seq!['c', 'o', 'n', 't', 'e', 'n', 't'], content),
    ]
}

/// Metadata pairs as template variables: each key prefixed with `!`.
pub open spec fn bang_model(meta: Seq<(Seq<char>, Seq<char>)>) -> Seq<(Seq<char>, Seq<char>)> {
    meta.map_values(|p: (Seq<char>, Seq<char>)| (seq!['!'] + p.0, p.1))
}

/// The metadata pairs as template variables, each key prefixed with `!`.
pub fn meta_vars(meta: &Vec<(String, String)>) -> (r: Vec<(String, String)>)
    ensures
        pairs_view(r@) == bang_model(pairs_view(meta@)),
{
    let mut sv: Vec<(String, String)> = Vec::new();
    let mut i: usize = 0;
    let ghost m = pairs_view(meta@);
    let ghost f = |p: (Seq<char>, Seq<char>)| (seq!['!'] + p.0, p.1);
    assert(pairs_view(sv@) =~= m.take(0).map_values(f));
    while i < meta.len()
        invariant
            i <= meta.len(),
            m == pairs_view(meta@),
            f == (|p: (Seq<char>, Seq<char>)| (seq!['!'] + p.0, p.1)),
            pairs_view(sv@) == m.take(i as int).map_values(f),
        decreases meta.len() - i,
    {
        let mut k: Vec<char> = Vec::new();
        k.push('!');
        let kc = chars_of(meta[i].0.as_str());
        let mut j: usize = 0;
        while j < kc.len()
            invariant
                j <= kc.len(),
                k@ == seq!['!'] + kc@.take(j as int),
            decreases kc.len() - j,
        {
            k.push(kc[j]);
            j = j + 1;
            assert(k@ =~= seq!['!'] + kc@.take(j as int));
        }
        assert(kc@.take(j as int) =~= kc@);
        let p = (string_of(&k), meta[i].1.clone());
        proof {
            crate::command::lemma_pairs_view_push(sv@, p);
            assert(m.take(i + 1) =~= m.take(i as int).push(m[i as int]));
        }
        sv.push(p);
        i = i + 1;
        assert(pairs_view(sv@) =~= m.take(i as int).map_values(f));
    }
    assert(m.take(i as int) =~= m);
    sv
}

/// The HTML backend with its page template and variables.
pub struct BackendHtml {
    pub template: String,
    pub template_dir: String,
    pub vars: Vec<(String, String)>,
    pub special_vars: Vec<(String, String)>,
}

pub open spec fn html_id() -> Seq<char> {
    seq!['h', 't', 'm', 'l']
}

impl BackendHtml {
    /// A backend for the page template `template` with the variables `vars`.
    pub fn new(template: String, vars: Vec<(String, String)>) -> (r: Self)
        ensures
            r.template == template,
            r.vars == vars,
            r.template_dir@.len() == 0,
            r.special_vars@.len() == 0,
    {
        BackendHtml { template, template_dir: String::new(), vars, special_vars: Vec::new() }
    }

    /// Sets the page variables: `!key` for each metadata pair, and `content`.
    pub fn set_special_vars(&mut self, content_var: String, meta: &Vec<(String, String)>)
        ensures
            pairs_view(final(self).special_vars@) == special_model(content_var@, pairs_view(meta@)),
            final(self).template == old(self).template,
            final(self).vars == old(self).vars,
            final(self).template_dir == old(self).template_dir,
    {
        let mut sv = meta_vars(meta);
        let c = (string_of(&vec!['c', 'o', 'n', 't', 'e', 'n', 't']), content_var);
        proof {
            crate::command::lemma_pairs_view_push(sv@, c);
        }
        sv.push(c);
        assert(pairs_view(sv@) =~= special_model(content_var@, pairs_view(meta@)));
        self.special_vars = sv;
    }

    /// The text node for `text`, each newline preceded by `<br />`.
    pub fn text_node(text: &String) -> (r: DomNode)
        ensures
            r is Text && r->Text_0@ == with_breaks(text@),
    {
        let cs = chars_of(text.as_str());
        let mut out: Vec<char> = Vec::new();
        let mut i: usize = 0;
        assert(cs@.take(0) =~= Seq::<char>::empty());
        while i < cs.len()
            invariant
                i <= cs.len(),
                out@ == with_breaks(cs@.take(i as int)),
            decreases cs.len() - i,
        {
            assert(cs@.take(i + 1).drop_last() =~= cs@.take(i as int));
            if cs[i] == '\n' {
                out.push('<');
                out.push('b');
                out.push('r');
                out.push(' ');
                out.push('/');
                out.push('>');
                out.push('\n');
            } else {
                out.push(cs[i]);
            }
            i = i + 1;
            assert(out@ =~= with_breaks(cs@.take(i as int)));
        }
        assert(cs@.take(i as int) =~= cs@);
        DomNode::Text(string_of(&out))
    }

    /// Renders one node: text as a text node, a command that targets this backend as a tag.
    pub fn render_node(&mut self, node: ASTNode) -> (r: Option<DomNode>)
        ensures
            *final(self) == *old(self),
            match node_html(node) {
                Some(h) => r is Some && dom_text(r->Some_0) == h && renders_as(node, r->Some_0),
                None => r is None,
            },
        decreases node,
    {
        match node {
            ASTNode::Text(s) => Some(Self::text_node(&s)),
            ASTNode::CommandCall(c) => self.render_command(c),
        }
    }

    /// A command for all backends becomes a tag; one for this backend only when its name
    /// starts with `tag.`, which is dropped; one for another backend renders nothing.
    pub fn render_command(&mut self, cmd: Command) -> (r: Option<DomNode>)
        ensures
            *final(self) == *old(self),
            !targets(opt_view(cmd.backend), html_id()) ==> r is None,
            cmd.backend is None ==> r is Some,
            match command_html(cmd) {
                Some(h) => r is Some && dom_text(r->Some_0) == h && command_renders_as(cmd, r->Some_0),
                None => r is None,
            },
        decreases cmd, 1nat,
    {
        let ghost c = cmd;
        match &cmd.backend {
            None => Some(self.node_from_command_args(cmd.cmd, cmd.attributes, cmd.arguments, Ghost(c))),
            Some(b) => {
                let bc = chars_of(b.as_str());
                let is_html = bc.len() == 4 && bc[0] == 'h' && bc[1] == 't' && bc[2] == 'm' && bc[3] == 'l';
                assert(is_html == (bc@ == html_id())) by {
                    if bc@ == html_id() {
                        assert(bc@[0] == 'h');
                    }
                    if is_html {
                        assert(bc@ =~= html_id());
                    }
                }
                if !is_html {
                    return None;
                }
                let name = chars_of(cmd.cmd.as_str());
                if name.len() >= 4 && name[0] == 't' && name[1] == 'a' && name[2] == 'g' && name[3] == '.' {
                    assert(name@.take(4) =~= seq!['t', 'a', 'g', '.']);
                    let mut rest: Vec<char> = Vec::new();
                    let mut j: usize = 4;
                    while j < name.len()
                        invariant
                            4 <= j <= name.len(),
                            rest@ == name@.subrange(4, j as int),
                        decreases name.len() - j,
                    {
                        rest.push(name[j]);
                        j = j + 1;
                        assert(rest@ =~= name@.subrange(4, j as int));
                    }
                    assert(rest@ =~= name@.skip(4));
                    let tn = string_of(&rest);
                    Some(self.node_from_command_args(tn, cmd.attributes, cmd.arguments, Ghost(c)))
                } else {
                    assert(!is_tag_name(name@)) by {
                        if is_tag_name(name@) {
                            assert(name@.take(4)[0] == name@[0]);
                            assert(name@.take(4)[1] == name@[1]);
                            assert(name@.take(4)[2] == name@[2]);
                            assert(name@.take(4)[3] == name@[3]);
                        }
                    }
                    None
                }
            },
        }
    }

    fn node_from_command_args(
        &mut self,
        tag_name: String,
        attributes: Vec<(String, String)>,
        arguments: Vec<ASTNode>,
        Ghost(owner): Ghost<Command>,
    ) -> (r: DomNode)
        requires
            owner.arguments@ == arguments@,
        ensures
            *final(self) == *old(self),
            r is Tag && r->Tag_0.tag_name == tag_name && r->Tag_0.attributes == attributes,
            r->Tag_0.child_nodes@.map_values(|d: DomNode| dom_text(d)) == args_html(owner.arguments@),
            dom_text(r) == tag_html(tag_name@, pairs_view(attributes@), args_html(owner.arguments@)),
            kids_render(owner.arguments@, r->Tag_0.child_nodes@),
        decreases owner, 0nat,
    {
        let ghost orig = arguments@;
        let mut args = arguments;
        let mut children: Vec<DomNode> = Vec::new();
        let ghost mut k: int = 0;
        assert(orig.skip(0) =~= orig);
        assert(orig.take(0) =~= Seq::<ASTNode>::empty());
        assert(children@.map_values(|d: DomNode| dom_text(d)) =~= Seq::<Seq<char>>::empty());
        assert(kids_render(orig.take(0), children@));
        while args.len() > 0
            invariant
                orig == owner.arguments@,
                0 <= k <= orig.len(),
                args@ == orig.skip(k),
                *self == *old(self),
                children@.map_values(|d: DomNode| dom_text(d)) == args_html(orig.take(k)),
                kids_render(orig.take(k), children@),
            decreases args.len(),
        {
            let ghost ch0 = children@.map_values(|d: DomNode| dom_text(d));
            let ghost kids0 = children@;
            let a = args.remove(0);
            proof {
                assert(a == orig[k]);
                assert(decreases_to!(owner => owner.arguments));
                vstd::std_specs::vec::axiom_vec_index_decreases(owner.arguments, k);
                assert(decreases_to!(owner => a));
                assert(args@ =~= orig.skip(k + 1));
                assert(orig.take(k + 1).drop_last() =~= orig.take(k));
                assert(orig.take(k + 1).last() == a);
                k = k + 1;
            }
            match self.render_node(a) {
                Some(n) => {
                    children.push(n);
                    assert(children@.map_values(|d: DomNode| dom_text(d)) =~= ch0.push(dom_text(n)));
                    assert(children@.drop_last() =~= kids0);
                },
                None => {},
            }
            assert(children@.map_values(|d: DomNode| dom_text(d)) =~= args_html(orig.take(k)));
        }
        assert(orig.take(k) =~= orig);
        let r = DomNode::Tag(HtmlTag { tag_name, attributes, child_nodes: children });
        proof {
            lemma_children_text(r->Tag_0.child_nodes@);
        }
        r
    }

    /// The tag for a command: its name, its attributes, and its rendered arguments.
    pub fn node_from_command(&mut self, cmd: Command) -> (r: DomNode)
        ensures
            *final(self) == *old(self),
            r is Tag && r->Tag_0.tag_name == cmd.cmd && r->Tag_0.attributes == cmd.attributes,
            r->Tag_0.child_nodes@.map_values(|d: DomNode| dom_text(d)) == args_html(cmd.arguments@),
            dom_text(r) == tag_html(cmd.cmd@, pairs_view(cmd.attributes@), args_html(cmd.arguments@)),
            kids_render(cmd.arguments@, r->Tag_0.child_nodes@),
        decreases cmd, 1nat,
    {
        let ghost c = cmd;
        self.node_from_command_args(cmd.cmd, cmd.attributes, cmd.arguments, Ghost(c))
    }
}

impl Backend for BackendHtml {
    type Rendered = DomNode;

    open spec fn id(&self) -> Seq<char> {
        html_id()
    }

    open spec fn text_outcome(&self, text: Seq<char>, r: DomNode) -> bool {
        r is Text && r->Text_0@ == with_breaks(text)
    }

    open spec fn command_outcome(&self, cmd: Command, r: Option<DomNode>) -> bool {
        match command_html(cmd) {
            Some(h) => r is Some && dom_text(r->Some_0) == h && command_renders_as(cmd, r->Some_0),
            None => r is None,
        }
    }

    fn backend_id(&self) -> (r: String) {
        let r = string_of(&vec!['h', 't', 'm', 'l']);
        assert(r@ =~= html_id());
        r
    }

    fn emit_text(&mut self, text: String) -> DomNode {
        Self::text_node(&text)
    }

    fn run_command(&mut self, cmd: Command) -> Option<DomNode> {
        self.render_command(cmd)
    }
}

/// How `str`'s `Debug` formatting writes `s`: quoted, with quotes and control characters
/// escaped.
pub uninterp spec fn debug_quoted(s: Seq<char>) -> Seq<char>;

/// Relies on the `Debug` formatting of `str`: the result depends on the text alone.
#[verifier::external_body]
fn quoted(s: &str) -> (r: String)
    ensures
        r@ == debug_quoted(s@),
{
    format!("{:?}", s)
}

/// The attributes written as `key="value"` pairs separated by spaces.
pub open spec fn attrs_text(ps: Seq<(Seq<char>, Seq<char>)>) -> Seq<char>
    decreases ps.len(),
{
    if ps.len() == 0 {
        seq![]
    } else {
        let p = ps.last();
        let item = p.0 + seq!['='] + debug_quoted(p.1);
        if ps.len() == 1 {
            item
        } else {
            attrs_text(ps.drop_last()) + seq![' '] + item
        }
    }
}

/// The HTML text of a node: text as it is, a tag with its attributes and its children
/// separated by spaces.
pub open spec fn dom_text(n: DomNode) -> Seq<char>
    decreases n,
{
    match n {
        DomNode::Text(s) => s@,
        DomNode::Tag(t) => {
            let a = attrs_text(pairs_view(t.attributes@));
            seq!['<'] + t.tag_name@ + (if a.len() == 0 {
                seq![]
            } else {
                seq![' '] + a
            }) + seq!['>'] + children_text(t.child_nodes@) + seq!['<', '/'] + t.tag_name@ + seq!['>']
        },
    }
}

/// The HTML texts of nodes separated by spaces.
pub open spec fn children_text(s: Seq<DomNode>) -> Seq<char>
    decreases s,
{
    if s.len() == 0 {
        seq![]
    } else if s.len() == 1 {
        dom_text(s[0])
    } else {
        children_text(s.drop_last()) + seq![' '] + dom_text(s.last())
    }
}

/// Texts joined with single spaces.
pub open spec fn join_spaced(kids: Seq<Seq<char>>) -> Seq<char>
    decreases kids.len(),
{
    if kids.len() == 0 {
        seq![]
    } else if kids.len() == 1 {
        kids[0]
    } else {
        join_spaced(kids.drop_last()) + seq![' '] + kids.last()
    }
}

/// The HTML text of a tag with the given name, attributes and children's texts.
pub open spec fn tag_html(name: Seq<char>, attrs: Seq<(Seq<char>, Seq<char>)>, kids: Seq<Seq<char>>) -> Seq<char> {
    let a = attrs_text(attrs);
    seq!['<'] + name + (if a.len() == 0 {
        seq![]
    } else {
        seq![' '] + a
    }) + seq!['>'] + join_spaced(kids) + seq!['<', '/'] + name + seq!['>']
}

/// `name` starts with `tag.`.
pub open spec fn is_tag_name(name: Seq<char>) -> bool {
    name.len() >= 4 && name.take(4) == seq!['t', 'a', 'g', '.']
}

/// The HTML text that this backend renders for a node: text with its line breaks, a command
/// for every backend as a tag of its name, a command for this backend as a tag only when its
/// name starts with `tag.` (which is dropped), and nothing for any other command.
pub open spec fn node_html(n: ASTNode) -> Option<Seq<char>>
    decreases n,
{
    match n {
        ASTNode::Text(s) => Some(with_breaks(s@)),
        ASTNode::CommandCall(c) => command_html(c),
    }
}

pub open spec fn command_html(c: Command) -> Option<Seq<char>>
    decreases c,
{
    match c.backend {
        None => Some(tag_html(c.cmd@, pairs_view(c.attributes@), args_html(c.arguments@))),
        Some(b) => if b@ == html_id() && is_tag_name(c.cmd@) {
            Some(tag_html(c.cmd@.skip(4), pairs_view(c.attributes@), args_html(c.arguments@)))
        } else {
            None
        },
    }
}

/// The HTML texts of the nodes that render, in order.
pub open spec fn args_html(s: Seq<ASTNode>) -> Seq<Seq<char>>
    decreases s,
{
    if s.len() == 0 {
        seq![]
    } else {
        args_html(s.drop_last()) + match node_html(s.last()) {
            Some(h) => seq![h],
            None => seq![],
        }
    }
}

/// `d` is the node this backend builds for `n`: a text node with line breaks for text, and
/// for a command the tag described by `command_renders_as`.
pub open spec fn renders_as(n: ASTNode, d: DomNode) -> bool
    decreases n,
{
    match n {
        ASTNode::Text(s) => d is Text && d->Text_0@ == with_breaks(s@),
        ASTNode::CommandCall(c) => command_renders_as(c, d),
    }
}

/// `d` is the tag built for `c`: named by the command (without its `tag.` prefix when it
/// names a backend), with the command's attributes, and with the nodes built for the
/// arguments that render, in order.
pub open spec fn command_renders_as(c: Command, d: DomNode) -> bool
    decreases c,
{
    &&& d is Tag
    &&& d->Tag_0.tag_name@ == if c.backend is None { c.cmd@ } else { c.cmd@.skip(4) }
    &&& d->Tag_0.attributes == c.attributes
    &&& kids_render(c.arguments@, d->Tag_0.child_nodes@)
}

/// `kids` are the nodes built for those of `args` that render, in order.
pub open spec fn kids_render(args: Seq<ASTNode>, kids: Seq<DomNode>) -> bool
    decreases args,
{
    if args.len() == 0 {
        kids.len() == 0
    } else if node_html(args.last()) is None {
        kids_render(args.drop_last(), kids)
    } else {
        kids.len() > 0 && renders_as(args.last(), kids.last()) && kids_render(args.drop_last(), kids.drop_last())
    }
}

/// The texts joined with nothing between them.
pub open spec fn concat_all(s: Seq<Seq<char>>) -> Seq<char>
    decreases s.len(),
{
    if s.len() == 0 {
        seq![]
    } else {
        concat_all(s.drop_last()) + s.last()
    }
}

proof fn lemma_children_text(cs: Seq<DomNode>)
    ensures
        children_text(cs) == join_spaced(cs.map_values(|d: DomNode| dom_text(d))),
    decreases cs.len(),
{
    let m = cs.map_values(|d: DomNode| dom_text(d));
    if cs.len() > 1 {
        lemma_children_text(cs.drop_last());
        assert(m.drop_last() =~= cs.drop_last().map_values(|d: DomNode| dom_text(d)));
    } else if cs.len() == 1 {
        assert(m[0] == dom_text(cs[0]));
    }
}

impl DomNode {
    /// The HTML text of this node.
    pub fn to_html(&self) -> (r: String)
        ensures
            r@ == dom_text(*self),
        decreases self,
    {
        match self {
            DomNode::Text(s) => s.clone(),
            DomNode::Tag(t) => {
                let name = chars_of(t.tag_name.as_str());
                let mut out: Vec<char> = Vec::new();
                out.push('<');
                push_chars(&mut out, &name);
                let mut a: Vec<char> = Vec::new();
                let mut i: usize = 0;
                let ghost ps = pairs_view(t.attributes@);
                assert(ps.take(0) =~= Seq::<(Seq<char>, Seq<char>)>::empty());
                while i < t.attributes.len()
                    invariant
                        i <= t.attributes.len(),
                        ps == pairs_view(t.attributes@),
                        a@ == attrs_text(ps.take(i as int)),
                    decreases t.attributes.len() - i,
                {
                    assert(ps.take(i + 1).drop_last() =~= ps.take(i as int));
                    if i > 0 {
                        a.push(' ');
                    }
                    let k = chars_of(t.attributes[i].0.as_str());
                    push_chars(&mut a, &k);
                    a.push('=');
                    let q = quoted(t.attributes[i].1.as_str());
                    let qc = chars_of(q.as_str());
                    push_chars(&mut a, &qc);
                    i = i + 1;
                    assert(a@ =~= attrs_text(ps.take(i as int)));
                }
                assert(ps.take(i as int) =~= ps);
                if a.len() > 0 {
                    out.push(' ');
                    push_chars(&mut out, &a);
                }
                out.push('>');
                let ghost before_children = out@;
                let mut j: usize = 0;
                let mut body: Vec<char> = Vec::new();
                let ghost cs = t.child_nodes@;
                assert(cs.take(0) =~= Seq::<DomNode>::empty());
                while j < t.child_nodes.len()
                    invariant
                        j <= t.child_nodes.len(),
                        cs == t.child_nodes@,
                        *self == DomNode::Tag(*t),
                        body@ == children_text(cs.take(j as int)),
                    decreases t.child_nodes.len() - j,
                {
                    proof {
                        vstd::std_specs::vec::axiom_vec_index_decreases(t.child_nodes, j as int);
                        assert(decreases_to!(*self => self->Tag_0));
                        assert(self->Tag_0 == *t);
                        assert(decreases_to!(*t => t.child_nodes));
                        assert(decreases_to!(*self => t.child_nodes[j as int]));
                        assert(cs.take(j + 1).drop_last() =~= cs.take(j as int));
                        assert(cs.take(j + 1).last() == cs[j as int]);
                        if j == 0 {
                            assert(cs.take(1)[0] == cs[0]);
                        }
                    }
                    if j > 0 {
                        body.push(' ');
                    }
                    let h = t.child_nodes[j].to_html();
                    let hc = chars_of(h.as_str());
                    push_chars(&mut body, &hc);
                    j = j + 1;
                    assert(body@ =~= children_text(cs.take(j as int)));
                }
                assert(cs.take(j as int) =~= cs);
                push_chars(&mut out, &body);
                out.push('<');
                out.push('/');
                push_chars(&mut out, &name);
                out.push('>');
                let ghost at = attrs_text(pairs_view(t.attributes@));
                assert(out@ =~= seq!['<'] + t.tag_name@ + (if at.len() == 0 {
                    seq![]
                } else {
                    seq![' '] + at
                }) + seq!['>'] + children_text(t.child_nodes@) + seq!['<', '/'] + t.tag_name@ + seq!['>']);
                string_of(&out)
            },
        }
    }
}

impl BackendHtml {
    /// Renders the document's nodes, joins their HTML, sets the page variables from the
    /// content and the metadata, and expands the page template with them. Returns the page
    /// and the template's warnings.
    pub fn compile_ast<H: TemplateHost>(&mut self, ast: AST, host: &mut H) -> (r: (String, Vec<String>))
        ensures
            pairs_view(final(self).special_vars@) == special_model(
                concat_all(args_html(ast.nodes@)),
                pairs_view(ast.metadata@),
            ),
            final(self).template == old(self).template,
            final(self).vars == old(self).vars,
            final(self).template_dir == old(self).template_dir,
            run_result(old(self).template@, pairs_view(old(self).vars@) + pairs_view(final(self).special_vars@), r.0@),
            ({
                let vs = pairs_view(old(self).vars@) + pairs_view(final(self).special_vars@);
                no_blocks(old(self).template@) && occurrences(vars_model(old(self).template@, vs), 0, run_opener(), '(', ')').len()
                    == 0 ==> r.0@ == pure_passes(old(self).template@, vs) && *final(host) == *old(host)
            }),
    {
        let AST { metadata, nodes } = ast;
        let ghost all = nodes@;
        let mut nodes = nodes;
        let mut content: Vec<char> = Vec::new();
        let ghost mut k: int = 0;
        assert(all.take(0) =~= Seq::<ASTNode>::empty());
        while nodes.len() > 0
            invariant
                0 <= k <= all.len(),
                nodes@ == all.skip(k),
                content@ == concat_all(args_html(all.take(k))),
                self.template == old(self).template,
                self.vars == old(self).vars,
                self.template_dir == old(self).template_dir,
            decreases nodes.len(),
        {
            let ghost c0 = content@;
            let n = nodes.remove(0);
            proof {
                assert(n == all[k]);
                assert(nodes@ =~= all.skip(k + 1));
                assert(all.take(k + 1).drop_last() =~= all.take(k));
                assert(all.take(k + 1).last() == n);
                k = k + 1;
            }
            match self.render_node(n) {
                Some(d) => {
                    let h = d.to_html();
                    let hc = chars_of(h.as_str());
                    push_chars(&mut content, &hc);
                    let ghost a = args_html(all.take(k));
                    assert(a.drop_last() =~= args_html(all.take(k - 1)));
                },
                None => {},
            }
        }
        assert(all.take(k) =~= all);
        let c = string_of(&content);
        self.set_special_vars(c, &metadata);
        let mut vars: Vec<(String, String)> = Vec::new();
        assert(pairs_view(vars@) =~= Seq::<(Seq<char>, Seq<char>)>::empty());
        crate::engine::clone_pairs(&self.vars, &mut vars);
        crate::engine::clone_pairs(&self.special_vars, &mut vars);
        assert(pairs_view(vars@) =~= pairs_view(self.vars@) + pairs_view(self.special_vars@));
        let engine = TemplateEngine::new(self.template.clone(), self.template_dir.clone(), vars);
        engine.run(host)
    }
}

} // verus!
