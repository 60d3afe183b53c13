//! The template engine: a template text, its directory and its variables, expanded in a
//! fixed order of passes. Directory listings, per-file metadata and commands come from a host.
use vstd::prelude::*;
use crate::ast::pairs_view;
use crate::scan::escape_scan;
use crate::text::{string_of, chars_of, push_chars, copy_range};
use crate::template::same_chars;
use crate::template::{
    Syntax, opens_at, macro_args, splice_macros, expand_vars, expand_alt, expand_setext, expand_perc,
    vars_model, alt_model, setext_model, perc_model, run_syntax, occurrences, splice, macro_at,
    unclosed, unbound_names, setext_bad, var_opener, setext_opener, alt_opener,
    lemma_close_bounds, close_at,
};
use crate::shell::{parse_cmd_and_args, matches_pattern};
use crate::preprocess::{split_from, split_at_char};

verus! {

broadcast use vstd::std_specs::vec::group_vec_axioms, vstd::seq::group_seq_axioms;

/// What the engine needs from its surroundings. Nothing is assumed of the answers.
pub trait TemplateHost {
    /// The names of the entries of directory `dir`, relative to `base`.
    fn list_dir(&mut self, base: &String, dir: &String) -> Result<Vec<String>, String>;

    /// The variables that the file `name` in directory `dir` (relative to `base`) provides.
    fn file_vars(&mut self, base: &String, dir: &String, name: &String) -> Vec<(String, String)>;

    /// The standard output of command `cmd` run with `args` in directory `base`.
    fn run_command(&mut self, base: &String, cmd: &String, args: &Vec<String>) -> Result<String, String>;
}

/// A template with the directory it lives in and the variables it is expanded with.
pub struct TemplateEngine {
    pub vars: Vec<(String, String)>,
    pub template: String,
    pub template_dir: String,
}

/// The options of a `%forfiles(...)` block.
pub struct ForFiles {
    pub var: Option<String>,
    pub path: Option<String>,
    pub sort_key: Option<String>,
    pub descending: bool,
    pub exclude: Vec<String>,
    pub wanted: Vec<String>,
}

pub open spec fn forfiles_opener() -> Seq<char> {
    seq!['%', 'f', 'o', 'r', 'f', 'i', 'l', 'e', 's', '(']
}

/// `r` is what the passes after the block macros make of `t` when its complete blocks expand
/// to `bx` and its complete `%run` macros, once variables are substituted, output `outs`.
pub open spec fn outputs_from(
    t: Seq<char>,
    vs: Seq<(Seq<char>, Seq<char>)>,
    bx: Seq<Seq<char>>,
    outs: Seq<Seq<char>>,
    r: Seq<char>,
) -> bool {
    let v = vars_model(block_splice(t, 0, bx), vs);
    outs.len() == occurrences(v, 0, run_opener(), '(', ')').len() && r == perc_model(
        alt_model(setext_model(splice(v, 0, run_opener(), '(', ')', outs))),
    )
}

/// `r` is a possible result of running template `t` with variables `vs`: its complete
/// blocks expand to possible block expansions, and its `%run` macros output some texts.
pub open spec fn run_result(t: Seq<char>, vs: Seq<(Seq<char>, Seq<char>)>, r: Seq<char>) -> bool {
    exists|bx: Seq<Seq<char>>, outs: Seq<Seq<char>>|
        bx.len() == blocks(t, 0).len() && blocks_ok(t, vs, bx) && #[trigger] outputs_from(t, vs, bx, outs, r)
}

/// Each `bx[k]` is a possible expansion of the `k`-th complete block of `t`.
pub open spec fn blocks_ok(t: Seq<char>, vs: Seq<(Seq<char>, Seq<char>)>, bx: Seq<Seq<char>>) -> bool {
    forall|k: int| 0 <= k < bx.len() ==> block_ok(vs, #[trigger] blocks(t, 0)[k], bx[k])
}

/// `s` holds no `%forfiles(`.
pub open spec fn no_blocks(s: Seq<char>) -> bool {
    forall|i: int| 0 <= i < s.len() ==> !opens_at(s, i, forfiles_opener())
}

/// The text that the engine's fixed passes make of `t` when it holds no block macros and no
/// command macros: variables, then `%setext`, then `%alt`, then `%perc`.
pub open spec fn pure_passes(t: Seq<char>, vars: Seq<(Seq<char>, Seq<char>)>) -> Seq<char> {
    perc_model(alt_model(setext_model(vars_model(t, vars))))
}

pub open spec fn run_opener() -> Seq<char> {
    seq!['%', 'r', 'u', 'n', '(']
}

/// With no complete macro from `i` on, splicing leaves the text from `i` on as it is.
proof fn lemma_splice_none(s: Seq<char>, i: int, o: Seq<char>, open: char, close: char, vals: Seq<Seq<char>>)
    requires
        0 <= i <= s.len(),
        occurrences(s, i, o, open, close).len() == 0,
    ensures
        splice(s, i, o, open, close, vals) == s.skip(i),
    decreases s.len() - i,
{
    if i < s.len() {
        if macro_at(s, i, o, open, close) {
            assert(occurrences(s, i, o, open, close).len() > 0);
        } else {
            lemma_splice_none(s, i + 1, o, open, close, vals);
            assert(s.skip(i) =~= seq![s[i]] + s.skip(i + 1));
        }
    } else {
        assert(s.skip(i) =~= Seq::<char>::empty());
    }
}

fn push_str(out: &mut Vec<char>, s: &str)
    ensures
        final(out)@ == old(out)@ + s@,
{
    let cs = chars_of(s);
    let mut i: usize = 0;
    while i < cs.len()
        invariant
            i <= cs.len(),
            out@ == old(out)@ + cs@.take(i as int),
        decreases cs.len() - i,
    {
        out.push(cs[i]);
        i = i + 1;
        assert(out@ =~= old(out)@ + cs@.take(i as int));
    }
    assert(cs@.take(i as int) =~= cs@);
}

fn diag(text: &str, detail: &Vec<char>) -> String {
    let mut m: Vec<char> = Vec::new();
    push_str(&mut m, "warning: ");
    push_str(&mut m, text);
    push_chars(&mut m, detail);
    string_of(&m)
}

/// A warning for each opener of `syn` in `s` that is never closed; such text is left as it is.
fn warn_unclosed(s: &Vec<char>, syn: &Syntax, diags: &mut Vec<String>)
    ensures
        final(diags)@.len() == old(diags)@.len() + crate::template::unclosed(s@, 0, syn.opener@, syn.open, syn.close),
{
    let n = crate::template::unclosed_count(s, syn);
    let mut i: usize = 0;
    while i < n
        invariant
            i <= n,
            diags@.len() == old(diags)@.len() + i,
        decreases n - i,
    {
        diags.push(diag("incomplete macro left as it is: ", &syn.opener));
        i = i + 1;
    }
}

/// The options of a `%forfiles` block as values.
pub struct ForFilesModel {
    pub var: Option<Seq<char>>,
    pub path: Option<Seq<char>>,
    pub sort_key: Option<Seq<char>>,
    pub descending: bool,
    pub exclude: Seq<Seq<char>>,
    pub wanted: Seq<Seq<char>>,
}

impl ForFiles {
    pub open spec fn model(&self) -> ForFilesModel {
        ForFilesModel {
            var: crate::ast::opt_view(self.var),
            path: crate::ast::opt_view(self.path),
            sort_key: crate::ast::opt_view(self.sort_key),
            descending: self.descending,
            exclude: strings_view(self.exclude@),
            wanted: strings_view(self.wanted@),
        }
    }
}

/// The words that ask for a descending order.
pub open spec fn is_descending(o: Seq<char>) -> bool {
    o == seq!['-'] || o == seq!['d', 'e', 's', 'c'] || o == seq!['d', 'e', 's', 'c', 'e', 'n', 'd', 'i', 'n', 'g']
        || o == seq!['d', 'e', 'c', 'r', 'e', 'a', 's', 'i', 'n', 'g'] || o == seq!['d', 'e', 'c']
}

pub open spec fn verb_with() -> Seq<char> {
    seq!['w', 'i', 't', 'h']
}

pub open spec fn verb_in() -> Seq<char> {
    seq!['i', 'n']
}

pub open spec fn verb_sort_key() -> Seq<char> {
    seq!['s', 'o', 'r', 't', '_', 'k', 'e', 'y']
}

pub open spec fn verb_sort_order() -> Seq<char> {
    seq!['s', 'o', 'r', 't', '_', 'o', 'r', 'd', 'e', 'r']
}

pub open spec fn verb_exclude() -> Seq<char> {
    seq!['e', 'x', 'c', 'l', 'u', 'd', 'e', '_', 'n', 'a', 'm', 'e']
}

pub open spec fn verb_wanted() -> Seq<char> {
    seq!['i', 'n', 'c', 'l', 'u', 'd', 'e', '_', 'n', 'a', 'm', 'e']
}

/// The options after one `verb object` entry: `with` names the loop variable, `in` the
/// directory, `sort_key` the key template, `sort_order` a descending order for `-`, `desc`,
/// `descending`, `decreasing` or `dec`; the two name verbs add space-separated patterns.
/// An entry without a space, or with another verb, changes nothing.
pub open spec fn apply_entry(m: ForFilesModel, e: Seq<char>) -> ForFilesModel {
    let sp = crate::command::first_index(e, |c: char| c == ' ');
    if sp >= e.len() {
        m
    } else {
        let verb = e.take(sp);
        let obj = e.skip(sp + 1);
        let pats = crate::shell::space_words(escape_scan(obj), seq![]);
        if verb == verb_with() {
            ForFilesModel { var: Some(obj), path: m.path, sort_key: m.sort_key, descending: m.descending, exclude: m.exclude, wanted: m.wanted }
        } else if verb == verb_in() {
            ForFilesModel { var: m.var, path: Some(obj), sort_key: m.sort_key, descending: m.descending, exclude: m.exclude, wanted: m.wanted }
        } else if verb == verb_sort_key() {
            ForFilesModel { var: m.var, path: m.path, sort_key: Some(obj), descending: m.descending, exclude: m.exclude, wanted: m.wanted }
        } else if verb == verb_sort_order() {
            ForFilesModel { var: m.var, path: m.path, sort_key: m.sort_key, descending: m.descending || is_descending(obj), exclude: m.exclude, wanted: m.wanted }
        } else if verb == verb_exclude() {
            ForFilesModel { var: m.var, path: m.path, sort_key: m.sort_key, descending: m.descending, exclude: m.exclude + pats, wanted: m.wanted }
        } else if verb == verb_wanted() {
            ForFilesModel { var: m.var, path: m.path, sort_key: m.sort_key, descending: m.descending, exclude: m.exclude, wanted: m.wanted + pats }
        } else {
            m
        }
    }
}

pub open spec fn apply_entries(m: ForFilesModel, es: Seq<Seq<char>>) -> ForFilesModel
    decreases es.len(),
{
    if es.len() == 0 {
        m
    } else {
        apply_entries(apply_entry(m, es[0]), es.drop_first())
    }
}

/// The options written in the arguments of `%forfiles(...)`: `:`-separated entries, applied
/// from left to right to empty options.
pub open spec fn forfiles_model(args: Seq<char>) -> ForFilesModel {
    apply_entries(
        ForFilesModel { var: None, path: None, sort_key: None, descending: false, exclude: seq![], wanted: seq![] },
        split_from(args, ':', seq![]),
    )
}

fn push_patterns(out: &mut Vec<String>, obj: &String)
    ensures
        strings_view(final(out)@) == strings_view(old(out)@) + crate::shell::space_words(escape_scan(obj@), seq![]),
{
    let pats = crate::shell::split_spaces(obj.as_str());
    let mut k: usize = 0;
    assert(strings_view(pats@).take(0) =~= Seq::<Seq<char>>::empty());
    while k < pats.len()
        invariant
            k <= pats.len(),
            strings_view(out@) == strings_view(old(out)@) + strings_view(pats@).take(k as int),
        decreases pats.len() - k,
    {
        let p = pats[k].clone();
        let ghost o = strings_view(out@);
        out.push(p);
        assert(strings_view(out@) =~= o.push(p@));
        k = k + 1;
        assert(strings_view(pats@).take(k as int) =~= strings_view(pats@).take(k - 1).push(p@));
    }
    assert(strings_view(pats@).take(k as int) =~= strings_view(pats@));
}

/// Reads the options of a `%forfiles(...)` block from its arguments. Returns warnings for
/// unknown verbs and sort orders too.
pub fn parse_forfiles_args(args: &Vec<char>) -> (r: (ForFiles, Vec<String>))
    ensures
        r.0.model() == forfiles_model(args@),
{
    let mut opts = ForFiles {
        var: None,
        path: None,
        sort_key: None,
        descending: false,
        exclude: Vec::new(),
        wanted: Vec::new(),
    };
    let mut warnings: Vec<String> = Vec::new();
    let w_with = vec!['w', 'i', 't', 'h'];
    let w_in = vec!['i', 'n'];
    let w_key = vec!['s', 'o', 'r', 't', '_', 'k', 'e', 'y'];
    let w_order = vec!['s', 'o', 'r', 't', '_', 'o', 'r', 'd', 'e', 'r'];
    let w_exclude = vec!['e', 'x', 'c', 'l', 'u', 'd', 'e', '_', 'n', 'a', 'm', 'e'];
    let w_wanted = vec!['i', 'n', 'c', 'l', 'u', 'd', 'e', '_', 'n', 'a', 'm', 'e'];
    let d1 = vec!['-'];
    let d2 = vec!['d', 'e', 's', 'c'];
    let d3 = vec!['d', 'e', 's', 'c', 'e', 'n', 'd', 'i', 'n', 'g'];
    let d4 = vec!['d', 'e', 'c', 'r', 'e', 'a', 's', 'i', 'n', 'g'];
    let d5 = vec!['d', 'e', 'c'];
    let a1 = vec!['+'];
    let a2 = vec!['a', 's', 'c'];
    let a3 = vec!['a', 's', 'c', 'e', 'n', 'd', 'i', 'n', 'g'];
    let a4 = vec!['i', 'n', 'c', 'r', 'e', 'a', 's', 'i', 'n', 'g'];
    let a5 = vec!['i', 'n', 'c'];
    let entries = split_at_char(args, ':');
    let ghost es = entries@.map_values(|l: Vec<char>| l@);
    let mut k: usize = 0;
    assert(es.skip(0) =~= es);
    assert(strings_view(opts.exclude@) =~= Seq::<Seq<char>>::empty());
    assert(strings_view(opts.wanted@) =~= Seq::<Seq<char>>::empty());
    while k < entries.len()
        invariant
            k <= entries.len(),
            es == entries@.map_values(|l: Vec<char>| l@),
            es == split_from(args@, ':', seq![]),
            w_with@ == verb_with(),
            w_in@ == verb_in(),
            w_key@ == verb_sort_key(),
            w_order@ == verb_sort_order(),
            w_exclude@ == verb_exclude(),
            w_wanted@ == verb_wanted(),
            d1@ == seq!['-'],
            d2@ == seq!['d', 'e', 's', 'c'],
            d3@ == seq!['d', 'e', 's', 'c', 'e', 'n', 'd', 'i', 'n', 'g'],
            d4@ == seq!['d', 'e', 'c', 'r', 'e', 'a', 's', 'i', 'n', 'g'],
            d5@ == seq!['d', 'e', 'c'],
            forfiles_model(args@) == apply_entries(opts.model(), es.skip(k as int)),
        decreases entries.len() - k,
    {
        let e = &entries[k];
        assert(e@ == es[k as int]);
        assert(es.skip(k as int).drop_first() =~= es.skip(k + 1));
        assert(es.skip(k as int)[0] == e@);
        let ghost m0 = opts.model();
        let mut sp: usize = 0;
        while sp < e.len() && e[sp] != ' '
            invariant
                sp <= e.len(),
                forall|j: int| 0 <= j < sp ==> e@[j] != ' ',
            decreases e.len() - sp,
        {
            sp = sp + 1;
        }
        proof {
            crate::command::lemma_first_index(e@, |c: char| c == ' ', sp as int);
        }
        if sp < e.len() {
            let verb = copy_range(e, 0, sp);
            let object = copy_range(e, sp + 1, e.len());
            assert(verb@ =~= e@.take(sp as int));
            assert(object@ =~= e@.skip(sp + 1));
            let obj = string_of(&object);
            if same_chars(&verb, &w_with) {
                opts.var = Some(obj);
            } else if same_chars(&verb, &w_in) {
                opts.path = Some(obj);
            } else if same_chars(&verb, &w_key) {
                opts.sort_key = Some(obj);
            } else if same_chars(&verb, &w_order) {
                if same_chars(&object, &d1) || same_chars(&object, &d2) || same_chars(&object, &d3) || same_chars(&object, &d4)
                    || same_chars(&object, &d5) {
                    opts.descending = true;
                } else if !(same_chars(&object, &a1) || same_chars(&object, &a2) || same_chars(&object, &a3) || same_chars(&object, &a4)
                    || same_chars(&object, &a5)) {
                    warnings.push(diag("unknown sort_order: ", &object));
                }
            } else if same_chars(&verb, &w_exclude) {
                push_patterns(&mut opts.exclude, &obj);
            } else if same_chars(&verb, &w_wanted) {
                push_patterns(&mut opts.wanted, &obj);
            } else {
                warnings.push(diag("ignoring unrecognised verb ", &verb));
            }
        }
        assert(opts.model() == apply_entry(m0, e@));
        k = k + 1;
    }
    (opts, warnings)
}

/// The file `name` is taken, given exclude and wanted patterns.
pub open spec fn selected(name: Seq<char>, exclude: Seq<Seq<char>>, wanted: Seq<Seq<char>>) -> bool {
    (forall|i: int| 0 <= i < exclude.len() ==> !crate::shell::glob(name, #[trigger] exclude[i]))
        && (wanted.len() == 0 || exists|i: int| 0 <= i < wanted.len() && crate::shell::glob(name, #[trigger] wanted[i]))
}

pub open spec fn strings_view(v: Seq<String>) -> Seq<Seq<char>> {
    v.map_values(|s: String| s@)
}

/// Whether the file `name` is taken by a `%forfiles` block: it matches no exclude pattern,
/// and it matches a wanted pattern when there are any.
pub fn file_selected(name: &String, opts: &ForFiles) -> (r: bool)
    ensures
        r == selected(name@, strings_view(opts.exclude@), strings_view(opts.wanted@)),
{
    let ghost ex = strings_view(opts.exclude@);
    let ghost wa = strings_view(opts.wanted@);
    let mut i: usize = 0;
    while i < opts.exclude.len()
        invariant
            i <= opts.exclude.len(),
            ex == strings_view(opts.exclude@),
            forall|j: int| 0 <= j < i ==> !crate::shell::glob(name@, #[trigger] opts.exclude@[j]@),
        decreases opts.exclude.len() - i,
    {
        if matches_pattern(name.as_str(), opts.exclude[i].as_str()) {
            assert(ex[i as int] == opts.exclude@[i as int]@);
            return false;
        }
        i = i + 1;
    }
    assert forall|i: int| 0 <= i < ex.len() implies !crate::shell::glob(name@, #[trigger] ex[i]) by {
        assert(ex[i] == opts.exclude@[i]@);
    }
    if opts.wanted.len() == 0 {
        return true;
    }
    let mut j: usize = 0;
    while j < opts.wanted.len()
        invariant
            j <= opts.wanted.len(),
            ex == strings_view(opts.exclude@),
            wa == strings_view(opts.wanted@),
            forall|i: int| 0 <= i < opts.exclude@.len() ==> !crate::shell::glob(name@, #[trigger] opts.exclude@[i]@),
            forall|k: int| 0 <= k < j ==> !crate::shell::glob(name@, #[trigger] opts.wanted@[k]@),
        decreases opts.wanted.len() - j,
    {
        if matches_pattern(name.as_str(), opts.wanted[j].as_str()) {
            assert(crate::shell::glob(name@, wa[j as int]));
            return true;
        }
        j = j + 1;
    }
    assert forall|k: int| 0 <= k < wa.len() implies !crate::shell::glob(name@, #[trigger] wa[k]) by {
        assert(wa[k] == opts.wanted@[k]@);
    }
    false
}

/// `a` orders before `b`, comparing characters from the left, a prefix first.
pub open spec fn lex_less(a: Seq<char>, b: Seq<char>) -> bool
    decreases a.len(),
{
    if a.len() == 0 {
        b.len() > 0
    } else if b.len() == 0 {
        false
    } else if a[0] != b[0] {
        (a[0] as u32) < (b[0] as u32)
    } else {
        lex_less(a.drop_first(), b.drop_first())
    }
}

fn lex_less_exec(a: &Vec<char>, b: &Vec<char>) -> (r: bool)
    ensures
        r == lex_less(a@, b@),
{
    let mut i: usize = 0;
    assert(a@.skip(0) =~= a@);
    assert(b@.skip(0) =~= b@);
    while i < a.len() && i < b.len() && a[i] == b[i]
        invariant
            i <= a.len(),
            i <= b.len(),
            lex_less(a@, b@) == lex_less(a@.skip(i as int), b@.skip(i as int)),
        decreases a.len() - i,
    {
        assert(a@.skip(i as int).drop_first() =~= a@.skip(i + 1));
        assert(b@.skip(i as int).drop_first() =~= b@.skip(i + 1));
        i = i + 1;
    }
    if i == a.len() {
        return i < b.len();
    }
    if i == b.len() {
        return false;
    }
    assert(a@.skip(i as int)[0] == a@[i as int]);
    assert(b@.skip(i as int)[0] == b@[i as int]);
    (a[i] as u32) < (b[i] as u32)
}

/// Key and body of each entry of a `%forfiles` expansion, as values.
pub open spec fn entries_view(v: Seq<(Vec<char>, Vec<char>)>) -> Seq<(Seq<char>, Seq<char>)> {
    v.map_values(|p: (Vec<char>, Vec<char>)| (p.0@, p.1@))
}

/// An entry with key `a` goes before one with key `b`: `a` orders first, or last when the
/// order is descending.
pub open spec fn goes_before(a: Seq<char>, b: Seq<char>, desc: bool) -> bool {
    if desc {
        lex_less(b, a)
    } else {
        lex_less(a, b)
    }
}

/// `s` with `e` inserted after the entries at its end that `e` does not go before.
pub open spec fn insert_entry(s: Seq<(Seq<char>, Seq<char>)>, e: (Seq<char>, Seq<char>), desc: bool) -> Seq<
    (Seq<char>, Seq<char>),
>
    decreases s.len(),
{
    if s.len() > 0 && goes_before(e.0, s.last().0, desc) {
        insert_entry(s.drop_last(), e, desc).push(s.last())
    } else {
        s.push(e)
    }
}

/// The entries ordered by key; entries with equal keys keep their order.
pub open spec fn sort_entries(s: Seq<(Seq<char>, Seq<char>)>, desc: bool) -> Seq<(Seq<char>, Seq<char>)>
    decreases s.len(),
{
    if s.len() == 0 {
        s
    } else {
        insert_entry(sort_entries(s.drop_last(), desc), s.last(), desc)
    }
}

proof fn lemma_insert_len(s: Seq<(Seq<char>, Seq<char>)>, e: (Seq<char>, Seq<char>), desc: bool)
    ensures
        insert_entry(s, e, desc).len() == s.len() + 1,
    decreases s.len(),
{
    if s.len() > 0 && goes_before(e.0, s.last().0, desc) {
        lemma_insert_len(s.drop_last(), e, desc);
    }
}

proof fn lemma_sort_len(s: Seq<(Seq<char>, Seq<char>)>, desc: bool)
    ensures
        sort_entries(s, desc).len() == s.len(),
    decreases s.len(),
{
    if s.len() > 0 {
        lemma_sort_len(s.drop_last(), desc);
        lemma_insert_len(sort_entries(s.drop_last(), desc), s.last(), desc);
    }
}

/// Sorts the entries by key, keeping the order of equal keys.
fn sort_by_key(items: &mut Vec<(Vec<char>, Vec<char>)>, descending: bool)
    ensures
        entries_view(final(items)@) == sort_entries(entries_view(old(items)@), descending),
{
    let n = items.len();
    let ghost orig = entries_view(items@);
    if n == 0 {
        assert(orig.len() == 0);
        return;
    }
    let mut i: usize = 1;
    proof {
        assert(orig.take(1).drop_last() =~= Seq::<(Seq<char>, Seq<char>)>::empty());
        assert(entries_view(items@).take(1) =~= seq![orig[0]]);
        assert(sort_entries(orig.take(1), descending) =~= seq![orig[0]]) by {
            assert(sort_entries(Seq::<(Seq<char>, Seq<char>)>::empty(), descending) =~= Seq::<(Seq<char>, Seq<char>)>::empty());
            assert(orig.take(1).last() == orig[0]);
        }
    }
    while i < n
        invariant
            1 <= i <= n,
            items.len() == n,
            orig.len() == n,
            entries_view(items@).take(i as int) == sort_entries(orig.take(i as int), descending),
            entries_view(items@).skip(i as int) == orig.skip(i as int),
        decreases n - i,
    {
        let ghost p = sort_entries(orig.take(i as int), descending);
        let ghost e = orig[i as int];
        let ghost rest = orig.skip(i + 1);
        proof {
            lemma_sort_len(orig.take(i as int), descending);
            assert(entries_view(items@) =~= p.take(i as int) + seq![e] + p.skip(i as int) + rest) by {
                assert(entries_view(items@) =~= entries_view(items@).take(i as int) + entries_view(items@).skip(i as int));
                assert(orig.skip(i as int) =~= seq![e] + rest);
                assert(p.skip(i as int) =~= Seq::<(Seq<char>, Seq<char>)>::empty());
                assert(p.take(i as int) =~= p);
            }
        }
        let mut j: usize = i;
        assert(p.take(i as int) =~= p);
        assert(p.skip(i as int) =~= Seq::<(Seq<char>, Seq<char>)>::empty());
        assert(insert_entry(p, e, descending) + Seq::<(Seq<char>, Seq<char>)>::empty() =~= insert_entry(p, e, descending));
        while j > 0
            invariant
                j <= i < n,
                items.len() == n,
                p.len() == i,
                entries_view(items@) == p.take(j as int) + seq![e] + p.skip(j as int) + rest,
                insert_entry(p, e, descending) == insert_entry(p.take(j as int), e, descending) + p.skip(j as int),
            ensures
                j <= i < n,
                items.len() == n,
                entries_view(items@) == p.take(j as int) + seq![e] + p.skip(j as int) + rest,
                insert_entry(p, e, descending) == insert_entry(p.take(j as int), e, descending) + p.skip(j as int),
                insert_entry(p.take(j as int), e, descending) == p.take(j as int).push(e),
            decreases j,
        {
            let ghost ev0 = entries_view(items@);
            assert(ev0[j as int] == e);
            assert(ev0[j - 1] == p[j - 1]);
            let before = if descending {
                lex_less_exec(&items[j - 1].0, &items[j].0)
            } else {
                lex_less_exec(&items[j].0, &items[j - 1].0)
            };
            let ghost pj = p.take(j as int);
            assert(pj.last() == p[j - 1]);
            assert(pj.drop_last() =~= p.take(j - 1));
            if !before {
                assert(insert_entry(pj, e, descending) == pj.push(e));
                break;
            }
            proof {
                assert(insert_entry(pj, e, descending) == insert_entry(p.take(j - 1), e, descending).push(p[j - 1]));
                assert(insert_entry(p.take(j - 1), e, descending).push(p[j - 1]) + p.skip(j as int) =~= insert_entry(
                    p.take(j - 1),
                    e,
                    descending,
                ) + p.skip(j - 1));
            }
            let ghost raw = items@;
            let x = items.remove(j);
            items.insert(j - 1, x);
            assert(items@ =~= raw.update(j - 1, raw[j as int]).update(j as int, raw[j - 1]));
            j = j - 1;
            assert(entries_view(items@) =~= p.take(j as int) + seq![e] + p.skip(j as int) + rest) by {
                assert(entries_view(items@) =~= ev0.update(j as int, ev0[j + 1]).update(j + 1, ev0[j as int]));
            }
        }
        proof {
            assert(orig.take(i + 1).drop_last() =~= orig.take(i as int));
            assert(orig.take(i + 1).last() == e);
            lemma_insert_len(p, e, descending);
            assert(entries_view(items@).take(i + 1) =~= insert_entry(p, e, descending));
            assert(entries_view(items@).skip(i + 1) =~= rest);
        }
        i = i + 1;
    }
    assert(orig.take(n as int) =~= orig);
    assert(entries_view(items@) =~= entries_view(items@).take(n as int));
}

/// The variables of one file of a `%forfiles` block: the engine's, then the file's own, then
/// the loop variable bound to the file name; a later pair overrides an earlier one.
pub open spec fn file_mapping(
    base: Seq<(Seq<char>, Seq<char>)>,
    own: Seq<(Seq<char>, Seq<char>)>,
    var: Option<Seq<char>>,
    name: Seq<char>,
) -> Seq<(Seq<char>, Seq<char>)> {
    base + own + match var {
        Some(v) => seq![(v, name)],
        None => seq![],
    }
}

/// The expansion of a `%forfiles` body over `files` (name and own variables of each), in
/// the order given, skipping the files that are not taken.
pub open spec fn render_model(
    base: Seq<(Seq<char>, Seq<char>)>,
    files: Seq<(String, Vec<(String, String)>)>,
    var: Option<Seq<char>>,
    exclude: Seq<Seq<char>>,
    wanted: Seq<Seq<char>>,
    body: Seq<char>,
) -> Seq<char>
    decreases files.len(),
{
    if files.len() == 0 {
        seq![]
    } else {
        let f = files.last();
        render_model(base, files.drop_last(), var, exclude, wanted, body) + if selected(
            f.0@,
            exclude,
            wanted,
        ) {
            vars_model(body, file_mapping(base, pairs_view(f.1@), var, f.0@))
        } else {
            seq![]
        }
    }
}

/// Sort key and expansion of the body for each taken file, in the order given.
pub open spec fn entries_model(
    base: Seq<(Seq<char>, Seq<char>)>,
    files: Seq<(String, Vec<(String, String)>)>,
    var: Option<Seq<char>>,
    exclude: Seq<Seq<char>>,
    wanted: Seq<Seq<char>>,
    body: Seq<char>,
    key: Seq<char>,
) -> Seq<(Seq<char>, Seq<char>)>
    decreases files.len(),
{
    if files.len() == 0 {
        seq![]
    } else {
        let f = files.last();
        let m = file_mapping(base, pairs_view(f.1@), var, f.0@);
        entries_model(base, files.drop_last(), var, exclude, wanted, body, key) + if selected(f.0@, exclude, wanted) {
            seq![(vars_model(key, m), vars_model(body, m))]
        } else {
            seq![]
        }
    }
}

/// The bodies of the entries, joined.
pub open spec fn bodies(s: Seq<(Seq<char>, Seq<char>)>) -> Seq<char>
    decreases s.len(),
{
    if s.len() == 0 {
        seq![]
    } else {
        bodies(s.drop_last()) + s.last().1
    }
}

pub(crate) fn clone_pairs(v: &Vec<(String, String)>, out: &mut Vec<(String, String)>)
    ensures
        pairs_view(final(out)@) == pairs_view(old(out)@) + pairs_view(v@),
{
    let mut i: usize = 0;
    while i < v.len()
        invariant
            i <= v.len(),
            pairs_view(out@) == pairs_view(old(out)@) + pairs_view(v@.take(i as int)),
        decreases v.len() - i,
    {
        let p = (v[i].0.clone(), v[i].1.clone());
        proof {
            crate::command::lemma_pairs_view_push(out@, p);
            assert(v@.take(i + 1) =~= v@.take(i as int).push(v@[i as int]));
            crate::command::lemma_pairs_view_push(v@.take(i as int), v@[i as int]);
        }
        out.push(p);
        i = i + 1;
    }
    assert(v@.take(i as int) =~= v@);
}

/// Expands the body of a `%forfiles` block once for each taken file, in the order given
/// (ordered by the evaluated sort key when there is one), and joins the results.
pub fn render_forfiles(
    vars: &Vec<(String, String)>,
    files: &Vec<(String, Vec<(String, String)>)>,
    opts: &ForFiles,
    body: &Vec<char>,
) -> (r: Vec<char>)
    ensures
        opts.sort_key is None ==> r@ == render_model(
            pairs_view(vars@),
            files@,
            crate::ast::opt_view(opts.var),
            strings_view(opts.exclude@),
            strings_view(opts.wanted@),
            body@,
        ),
        opts.sort_key is Some ==> r@ == bodies(
            sort_entries(
                entries_model(
                    pairs_view(vars@),
                    files@,
                    crate::ast::opt_view(opts.var),
                    strings_view(opts.exclude@),
                    strings_view(opts.wanted@),
                    body@,
                    opts.sort_key->Some_0@,
                ),
                opts.descending,
            ),
        ),
{
    let ghost base = pairs_view(vars@);
    let ghost var = crate::ast::opt_view(opts.var);
    let ghost ex = strings_view(opts.exclude@);
    let ghost wa = strings_view(opts.wanted@);
    let mut entries: Vec<(Vec<char>, Vec<char>)> = Vec::new();
    let mut out: Vec<char> = Vec::new();
    let mut i: usize = 0;
    assert(files@.take(0) =~= Seq::<(String, Vec<(String, String)>)>::empty());
    while i < files.len()
        invariant
            i <= files.len(),
            base == pairs_view(vars@),
            var == crate::ast::opt_view(opts.var),
            ex == strings_view(opts.exclude@),
            wa == strings_view(opts.wanted@),
            opts.sort_key is None ==> out@ == render_model(base, files@.take(i as int), var, ex, wa, body@),
            opts.sort_key is Some ==> entries_view(entries@) == entries_model(base, files@.take(i as int), var, ex, wa, body@, opts.sort_key->Some_0@),
        decreases files.len() - i,
    {
        let ghost o = out@;
        assert(files@.take(i + 1).drop_last() =~= files@.take(i as int));
        assert(files@.take(i + 1).last() == files@[i as int]);
        let name = &files[i].0;
        if file_selected(name, opts) {
            let mut mapping: Vec<(String, String)> = Vec::new();
            assert(pairs_view(mapping@) =~= Seq::<(Seq<char>, Seq<char>)>::empty());
            clone_pairs(vars, &mut mapping);
            clone_pairs(&files[i].1, &mut mapping);
            match &opts.var {
                Some(v) => {
                    let p = (v.clone(), name.clone());
                    proof {
                        crate::command::lemma_pairs_view_push(mapping@, p);
                    }
                    mapping.push(p);
                },
                None => {},
            }
            assert(pairs_view(mapping@) =~= file_mapping(base, pairs_view(files@[i as int].1@), var, name@));
            let (expanded, _) = expand_vars(body, &mapping);
            match &opts.sort_key {
                Some(k) => {
                    let kc = chars_of(k.as_str());
                    let (key, _) = expand_vars(&kc, &mapping);
                    let ghost e0 = entries_view(entries@);
                    entries.push((key, expanded));
                    assert(entries_view(entries@) =~= e0.push((key@, expanded@)));
                },
                None => {
                    push_chars(&mut out, &expanded);
                },
            }
        } else {
            assert(o + Seq::<char>::empty() =~= o);
            assert(entries_view(entries@) + Seq::<(Seq<char>, Seq<char>)>::empty() =~= entries_view(entries@));
        }
        i = i + 1;
    }
    assert(files@.take(i as int) =~= files@);
    match &opts.sort_key {
        Some(_) => {
            sort_by_key(&mut entries, opts.descending);
            let ghost es = entries_view(entries@);
            let mut sorted: Vec<char> = Vec::new();
            let mut j: usize = 0;
            assert(es.take(0) =~= Seq::<(Seq<char>, Seq<char>)>::empty());
            while j < entries.len()
                invariant
                    j <= entries.len(),
                    es == entries_view(entries@),
                    sorted@ == bodies(es.take(j as int)),
                decreases entries.len() - j,
            {
                assert(es.take(j + 1).drop_last() =~= es.take(j as int));
                assert(es.take(j + 1).last() == es[j as int]);
                push_chars(&mut sorted, &entries[j].1);
                j = j + 1;
            }
            assert(es.take(j as int) =~= es);
            sorted
        },
        None => out,
    }
}

/// A `%forfiles(args)%( body %)` block found in a text: where it starts, its arguments,
/// its body, and the index just after it.
pub struct Block {
    pub start: usize,
    pub args: Vec<char>,
    pub body: Vec<char>,
    pub end: usize,
}

/// The index of the `%)` that closes a block body scanned from `j`, with `lvl` pairs of
/// `%(` and `%)` open inside it; -1 when the text ends first.
pub open spec fn body_close(s: Seq<char>, j: int, lvl: nat) -> int
    decreases s.len() - j,
{
    if j < 0 || j + 1 >= s.len() {
        -1
    } else if s[j] == '%' && s[j + 1] == '(' {
        body_close(s, j + 2, lvl + 1)
    } else if s[j] == '%' && s[j + 1] == ')' {
        if lvl == 0 {
            j
        } else {
            body_close(s, j + 2, (lvl - 1) as nat)
        }
    } else {
        body_close(s, j + 1, lvl)
    }
}

/// Where the arguments of a block opened at `i` close.
pub open spec fn block_args_close(s: Seq<char>, i: int) -> int {
    close_at(s, i + 10, 0, '(', ')')
}

/// Where the body of a block opened at `i` closes.
pub open spec fn block_body_close(s: Seq<char>, i: int) -> int {
    body_close(s, block_args_close(s, i) + 3, 0)
}

/// A complete block `%forfiles(args)%(body%)` starts at `i`.
pub open spec fn block_at(s: Seq<char>, i: int) -> bool {
    let c = block_args_close(s, i);
    let e = block_body_close(s, i);
    opens_at(s, i, forfiles_opener()) && i + 10 <= c && c + 2 < s.len() && s[c + 1] == '%' && s[c + 2] == '('
        && c + 3 <= e && e + 2 <= s.len()
}

/// The arguments and the body of the complete block at `i`.
pub open spec fn block_parts(s: Seq<char>, i: int) -> (Seq<char>, Seq<char>) {
    (s.subrange(i + 10, block_args_close(s, i)), s.subrange(block_args_close(s, i) + 3, block_body_close(s, i)))
}

/// The arguments and bodies of the complete blocks from `i` on, left to right.
pub open spec fn blocks(s: Seq<char>, i: int) -> Seq<(Seq<char>, Seq<char>)>
    decreases s.len() - i,
{
    if i < 0 || i >= s.len() {
        seq![]
    } else if block_at(s, i) {
        seq![block_parts(s, i)] + blocks(s, block_body_close(s, i) + 2)
    } else {
        blocks(s, i + 1)
    }
}

/// The text from `i` on with its complete blocks replaced by `bx` in order (by the empty text
/// once `bx` runs out); everything else, incomplete blocks included, stays as it is.
pub open spec fn block_splice(s: Seq<char>, i: int, bx: Seq<Seq<char>>) -> Seq<char>
    decreases s.len() - i,
{
    if i < 0 || i >= s.len() {
        seq![]
    } else if block_at(s, i) {
        if bx.len() > 0 {
            bx[0] + block_splice(s, block_body_close(s, i) + 2, bx.drop_first())
        } else {
            block_splice(s, block_body_close(s, i) + 2, bx)
        }
    } else {
        seq![s[i]] + block_splice(s, i + 1, bx)
    }
}

/// What a block with options `m` and body `body` expands to over the files `files`.
pub open spec fn block_value(
    vs: Seq<(Seq<char>, Seq<char>)>,
    files: Seq<(String, Vec<(String, String)>)>,
    m: ForFilesModel,
    body: Seq<char>,
) -> Seq<char> {
    match m.sort_key {
        None => render_model(vs, files, m.var, m.exclude, m.wanted, body),
        Some(k) => bodies(sort_entries(entries_model(vs, files, m.var, m.exclude, m.wanted, body, k), m.descending)),
    }
}

/// `x` is a possible expansion of the block with arguments and body `p`: empty when it names
/// no directory, and otherwise empty (the listing failed) or its expansion over some listing.
pub open spec fn block_ok(vs: Seq<(Seq<char>, Seq<char>)>, p: (Seq<char>, Seq<char>), x: Seq<char>) -> bool {
    let m = forfiles_model(p.0);
    &&& m.path is None ==> x.len() == 0
    &&& x.len() == 0 || exists|files: Seq<(String, Vec<(String, String)>)>| x == block_value(vs, files, m, p.1)
}

/// How many of the blocks name no directory.
pub open spec fn no_path_count(bs: Seq<(Seq<char>, Seq<char>)>) -> nat
    decreases bs.len(),
{
    if bs.len() == 0 {
        0
    } else {
        no_path_count(bs.drop_last()) + if forfiles_model(bs.last().0).path is None {
            1nat
        } else {
            0nat
        }
    }
}

/// The complete block at `i`, if one starts there; an opener without a complete block gets a
/// warning.
fn block_at_exec(s: &Vec<char>, i: usize, diags: &mut Vec<String>) -> (r: Option<Block>)
    requires
        i < s.len(),
    ensures
        final(diags)@.len() >= old(diags)@.len(),
        r is Some <==> block_at(s@, i as int),
        r is Some ==> r->Some_0.start == i && r->Some_0.end == block_body_close(s@, i as int) + 2
            && (r->Some_0.args@, r->Some_0.body@) == block_parts(s@, i as int),
{
    let opener = vec!['%', 'f', 'o', 'r', 'f', 'i', 'l', 'e', 's', '('];
    assert(opener@ == forfiles_opener());
    if !crate::template::opens_at_exec(s, i, &opener) {
        return None;
    }
    proof {
        lemma_close_bounds(s@, i + 10, 0, '(', ')');
    }
    let c = match crate::template::find_close(s, i + 10, '(', ')') {
        None => {
            diags.push(diag("incomplete block command ignored: ", &opener));
            return None;
        },
        Some(c) => c,
    };
    if !(s.len() - c > 2 && s[c + 1] == '%' && s[c + 2] == '(') {
        diags.push(diag("invalid block command ignored (no `%(` after the arguments): ", &opener));
        return None;
    }
    let b = c + 3;
    let mut j: usize = b;
    let mut lvl: usize = 0;
    while s.len() - j > 1
        invariant
            b <= j <= s.len(),
            i + 10 <= c,
            c + 3 == b,
            b <= s.len(),
            diags@.len() == old(diags)@.len(),
            opens_at(s@, i as int, forfiles_opener()),
            c == block_args_close(s@, i as int),
            s@[c + 1] == '%' && s@[c + 2] == '(',
            lvl <= j,
            body_close(s@, b as int, 0) == body_close(s@, j as int, lvl as nat),
        decreases s.len() - j,
    {
        if s[j] == '%' && s[j + 1] == '(' {
            lvl = lvl + 1;
            j = j + 2;
        } else if s[j] == '%' && s[j + 1] == ')' {
            if lvl == 0 {
                let args = copy_range(s, i + 10, c);
                let body = copy_range(s, b, j);
                return Some(Block { start: i, args, body, end: j + 2 });
            }
            lvl = lvl - 1;
            j = j + 2;
        } else {
            j = j + 1;
        }
    }
    diags.push(diag("incomplete block command ignored (no ending `%)`): ", &opener));
    None
}

impl TemplateEngine {
    /// An engine for the template `template` that lives in `template_dir`, with no variables.
    pub fn from_string_and_dir(template: String, template_dir: String) -> (r: Self)
        ensures
            r.vars@.len() == 0,
            r.template@ == template@,
            r.template_dir@ == template_dir@,
    {
        TemplateEngine { vars: Vec::new(), template, template_dir }
    }

    /// An engine for `template` in `template_dir`, with the variables `vars`.
    pub fn new(template: String, template_dir: String, vars: Vec<(String, String)>) -> (r: Self)
        ensures
            r.vars@ == vars@,
            r.template@ == template@,
            r.template_dir@ == template_dir@,
    {
        TemplateEngine { vars, template, template_dir }
    }

    /// Sets the variable `key` to `value`, overriding an earlier value.
    pub fn set_var(&mut self, key: String, value: String)
        ensures
            final(self).vars@ == old(self).vars@.push((key, value)),
            final(self).template == old(self).template,
            final(self).template_dir == old(self).template_dir,
    {
        self.vars.push((key, value));
    }

    /// Replaces every complete `%{name}` of `text` by the value of `name`; unknown names give
    /// the empty text and a warning each.
    pub fn substitute(&self, text: &String) -> (r: (String, Vec<String>))
        ensures
            r.0@ == vars_model(text@, pairs_view(self.vars@)),
    {
        let cs = chars_of(text.as_str());
        let (out, unknown) = expand_vars(&cs, &self.vars);
        let mut diags: Vec<String> = Vec::new();
        let mut i: usize = 0;
        while i < unknown.len()
            decreases unknown.len() - i,
        {
            diags.push(diag("unknown variable: ", &unknown[i]));
            i = i + 1;
        }
        (string_of(&out), diags)
    }

    /// The text that replaces one `%forfiles` block: its body expanded for each taken file of
    /// the directory that the host lists. Without a path, or when the listing fails, it is
    /// empty and a warning is added.
    fn block_expansion<H: TemplateHost>(&self, b: &Block, host: &mut H, diags: &mut Vec<String>) -> (r: Vec<char>)
        ensures
            final(diags)@.len() >= old(diags)@.len(),
            forfiles_model(b.args@).path is None ==> r@.len() == 0 && final(diags)@.len() > old(diags)@.len()
                && *final(host) == *old(host),
            block_ok(pairs_view(self.vars@), (b.args@, b.body@), r@),
    {
        let (opts, warnings) = parse_forfiles_args(&b.args);
        let mut k: usize = 0;
        while k < warnings.len()
            invariant
                diags@.len() >= old(diags)@.len(),
            decreases warnings.len() - k,
        {
            diags.push(warnings[k].clone());
            k = k + 1;
        }
        let mut expansion: Vec<char> = Vec::new();
        match &opts.path {
            None => {
                diags.push(diag("`%forfiles` failed to evaluate: no path given", &Vec::new()));
            },
            Some(path) => match host.list_dir(&self.template_dir, path) {
                Err(e) => {
                    let ec = chars_of(e.as_str());
                    diags.push(diag("`%forfiles` failed to evaluate: ", &ec));
                },
                Ok(names) => {
                    let mut files: Vec<(String, Vec<(String, String)>)> = Vec::new();
                    let mut n: usize = 0;
                    while n < names.len()
                        decreases names.len() - n,
                    {
                        if file_selected(&names[n], &opts) {
                            let own = host.file_vars(&self.template_dir, path, &names[n]);
                            files.push((names[n].clone(), own));
                        }
                        n = n + 1;
                    }
                    expansion = render_forfiles(&self.vars, &files, &opts, &b.body);
                    assert(opts.model() == forfiles_model(b.args@));
                    assert(expansion@ == block_value(pairs_view(self.vars@), files@, forfiles_model(b.args@), b.body@));
                    let ghost fv = files@;
                    assert(exists|fs: Seq<(String, Vec<(String, String)>)>| expansion@ == block_value(pairs_view(self.vars@), fs, forfiles_model(b.args@), b.body@)) by {
                        assert(expansion@ == block_value(pairs_view(self.vars@), fv, forfiles_model(b.args@), b.body@));
                    }
                    assert(forfiles_model(b.args@).path is Some);
                    let ghost pp = (b.args@, b.body@);
                    assert(pp.0 == b.args@ && pp.1 == b.body@);
                    assert(block_ok(pairs_view(self.vars@), pp, expansion@));
                },
            },
        }
        expansion
    }

    /// Expands the block macros of `text` from the left: each complete `%forfiles` block is
    /// replaced by its expansion; the expansions themselves are not scanned again.
    fn expand_blocks<H: TemplateHost>(&self, text: &Vec<char>, host: &mut H, diags: &mut Vec<String>) -> (r: (
        Vec<char>,
        Ghost<Seq<Seq<char>>>,
    ))
        ensures
            final(diags)@.len() >= old(diags)@.len() + no_path_count(blocks(text@, 0)),
            r.1@.len() == blocks(text@, 0).len(),
            forall|k: int| 0 <= k < r.1@.len() ==> block_ok(pairs_view(self.vars@), #[trigger] blocks(text@, 0)[k], r.1@[k]),
            r.0@ == block_splice(text@, 0, r.1@),
            no_blocks(text@) ==> r.0@ == text@ && *final(host) == *old(host),
    {
        let ghost t = text@;
        let ghost vs = pairs_view(self.vars@);
        let mut out: Vec<char> = Vec::new();
        let ghost mut bx: Seq<Seq<char>> = seq![];
        let ghost mut done: Seq<(Seq<char>, Seq<char>)> = seq![];
        let mut i: usize = 0;
        proof {
            assert(done + blocks(t, 0) =~= blocks(t, 0));
            assert forall|x: Seq<Seq<char>>| block_splice(t, 0, bx + x) == out@ + block_splice(t, 0, x) by {
                assert(bx + x =~= x);
                assert(out@ + block_splice(t, 0, x) =~= block_splice(t, 0, x));
            }
        }
        while i < text.len()
            invariant
                i <= text.len(),
                t == text@,
                vs == pairs_view(self.vars@),
                blocks(t, 0) == done + blocks(t, i as int),
                bx.len() == done.len(),
                forall|k: int| 0 <= k < bx.len() ==> block_ok(vs, #[trigger] done[k], bx[k]),
                forall|x: Seq<Seq<char>>| block_splice(t, 0, bx + x) == out@ + block_splice(t, i as int, x),
                diags@.len() >= old(diags)@.len() + no_path_count(done),
                no_blocks(t) ==> out@ == t.take(i as int) && *host == *old(host),
            decreases text.len() - i,
        {
            match block_at_exec(text, i, diags) {
                Some(b) => {
                    let ghost d0 = diags@.len();
                    let e = self.block_expansion(&b, host, diags);
                    let ghost p = block_parts(t, i as int);
                    let ghost o0 = out@;
                    push_chars(&mut out, &e);
                    proof {
                        assert(blocks(t, i as int) == seq![p] + blocks(t, b.end as int));
                        assert(done.push(p) + blocks(t, b.end as int) =~= done + blocks(t, i as int));
                        assert(done.push(p).drop_last() =~= done);
                        assert forall|x: Seq<Seq<char>>| block_splice(t, 0, bx.push(e@) + x) == out@ + block_splice(t, b.end as int, x) by {
                            assert(bx.push(e@) + x =~= bx + (seq![e@] + x));
                            assert((seq![e@] + x).drop_first() =~= x);
                            assert(block_splice(t, i as int, seq![e@] + x) == e@ + block_splice(t, b.end as int, x));
                            assert(o0 + (e@ + block_splice(t, b.end as int, x)) =~= out@ + block_splice(t, b.end as int, x));
                        }
                        assert forall|k: int| 0 <= k < bx.push(e@).len() implies block_ok(vs, #[trigger] done.push(p)[k], bx.push(e@)[k]) by {
                            if k < bx.len() {
                                assert(done.push(p)[k] == done[k]);
                            }
                        }
                        assert(opens_at(t, i as int, forfiles_opener()));
                        bx = bx.push(e@);
                        done = done.push(p);
                    }
                    i = b.end;
                },
                None => {
                    let ghost o0 = out@;
                    out.push(text[i]);
                    proof {
                        assert(blocks(t, i as int) == blocks(t, i + 1));
                        assert forall|x: Seq<Seq<char>>| block_splice(t, 0, bx + x) == out@ + block_splice(t, i + 1, x) by {
                            assert(o0 + (seq![t[i as int]] + block_splice(t, i + 1, x)) =~= out@ + block_splice(t, i + 1, x));
                        }
                        if no_blocks(t) {
                            assert(out@ =~= t.take(i + 1));
                        }
                    }
                    i = i + 1;
                },
            }
        }
        proof {
            assert(blocks(t, i as int) =~= Seq::<(Seq<char>, Seq<char>)>::empty());
            assert(done + blocks(t, i as int) =~= done);
            assert(bx + Seq::<Seq<char>>::empty() =~= bx);
            assert(out@ + block_splice(t, i as int, seq![]) =~= out@);
            if no_blocks(t) {
                assert(t.take(i as int) =~= t);
            }
        }
        (out, Ghost(bx))
    }

    /// The passes that need no host, applied to one `%run` argument: variables, `%setext`,
    /// `%alt`, then `%perc`.
    pub fn expand_word(&self, w: &Vec<char>) -> (r: Vec<char>)
        ensures
            r@ == pure_passes(w@, pairs_view(self.vars@)),
    {
        let (a, _) = expand_vars(w, &self.vars);
        let (b, _) = expand_setext(&a);
        let c = expand_alt(&b);
        expand_perc(&c)
    }

    /// Runs each complete `%run(cmd args...)` of `s` through the host and puts its output in
    /// its place; a failed command gives the empty text and a warning. The arguments are split
    /// into words first; the command is passed as written, and each further word goes through
    /// the passes that need no host.
    fn expand_commands<H: TemplateHost>(&self, s: &Vec<char>, host: &mut H, diags: &mut Vec<String>) -> (r: Vec<char>)
        ensures
            final(diags)@.len() >= old(diags)@.len() + crate::template::unclosed(s@, 0, run_opener(), '(', ')'),
            occurrences(s@, 0, run_opener(), '(', ')').len() == 0 ==> r@ == s@ && *final(host) == *old(host),
            exists|outs: Seq<Seq<char>>|
                outs.len() == occurrences(s@, 0, run_opener(), '(', ')').len() && r@ == #[trigger] splice(
                    s@,
                    0,
                    run_opener(),
                    '(',
                    ')',
                    outs,
                ),
    {
        let syn = run_syntax();
        warn_unclosed(s, &syn, diags);
        let ghost d0 = diags@.len();
        let args = macro_args(s, &syn);
        let mut outputs: Vec<Vec<char>> = Vec::new();
        let mut i: usize = 0;
        while i < args.len()
            invariant
                diags@.len() >= d0,
                outputs.len() == i,
                i <= args.len(),
                args@.len() == 0 ==> *host == *old(host),
            decreases args.len() - i,
        {
            let line = string_of(&args[i]);
            match parse_cmd_and_args(line.as_str()) {
                Err(e) => {
                    let ec = chars_of(e.as_str());
                    diags.push(diag("`%run` failed to evaluate: ", &ec));
                    outputs.push(Vec::new());
                },
                Ok((cmd, words)) => {
                    let mut cargs: Vec<String> = Vec::new();
                    let mut w: usize = 0;
                    while w < words.len()
                        decreases words.len() - w,
                    {
                        let wc = chars_of(words[w].as_str());
                        cargs.push(string_of(&self.expand_word(&wc)));
                        w = w + 1;
                    }
                    match host.run_command(&self.template_dir, &cmd, &cargs) {
                        Ok(out) => outputs.push(chars_of(out.as_str())),
                        Err(e) => {
                            let ec = chars_of(e.as_str());
                            diags.push(diag("`%run` failed to evaluate: ", &ec));
                            outputs.push(Vec::new());
                        },
                    }
                },
            }
            i = i + 1;
        }
        let r = splice_macros(s, &syn, &outputs);
        proof {
            assert(args@.map_values(|v: Vec<char>| v@).len() == args@.len());
            assert(outputs@.map_values(|v: Vec<char>| v@).len() == outputs@.len());
            if occurrences(s@, 0, run_opener(), '(', ')').len() == 0 {
                lemma_splice_none(s@, 0, run_opener(), '(', ')', outputs@.map_values(|v: Vec<char>| v@));
                assert(s@.skip(0) =~= s@);
            }
        }
        r
    }

    /// Expands the template: block macros first, then variables, then `%run`, `%setext`,
    /// `%alt`, and finally `%perc`. Returns the text and the warnings.
    ///
    /// Without block macros there is a warning for each unclosed `%{` or `%run(` and each
    /// unbound name. Without block macros, and without command macros once variables are
    /// substituted, the host is not asked anything, the text is fixed by the passes alone, and
    /// there are warnings for unclosed `%setext(` and `%alt(` too and for malformed `%setext`.
    pub fn run<H: TemplateHost>(&self, host: &mut H) -> (r: (String, Vec<String>))
        ensures
            run_result(self.template@, pairs_view(self.vars@), r.0@),
            r.1@.len() >= no_path_count(blocks(self.template@, 0)),
            no_blocks(self.template@) ==> r.1@.len() >= unclosed(self.template@, 0, var_opener(), '{', '}')
                + unbound_names(occurrences(self.template@, 0, var_opener(), '{', '}'), pairs_view(self.vars@)).len()
                + unclosed(vars_model(self.template@, pairs_view(self.vars@)), 0, run_opener(), '(', ')'),
            no_blocks(self.template@) && occurrences(
                vars_model(self.template@, pairs_view(self.vars@)),
                0,
                run_opener(),
                '(',
                ')',
            ).len() == 0 ==> {
                let v = vars_model(self.template@, pairs_view(self.vars@));
                &&& r.0@ == pure_passes(self.template@, pairs_view(self.vars@))
                &&& *final(host) == *old(host)
                &&& r.1@.len() >= unclosed(self.template@, 0, var_opener(), '{', '}')
                    + unbound_names(occurrences(self.template@, 0, var_opener(), '{', '}'), pairs_view(self.vars@)).len()
                    + unclosed(v, 0, setext_opener(), '(', ')')
                    + (if setext_bad(occurrences(v, 0, setext_opener(), '(', ')')) > 0 { 1nat } else { 0nat })
                    + unclosed(setext_model(v), 0, alt_opener(), '(', ')')
            },
    {
        let mut diags: Vec<String> = Vec::new();
        let t = chars_of(self.template.as_str());
        let (t1, Ghost(bx)) = self.expand_blocks(&t, host, &mut diags);
        let ghost d1 = diags@.len();
        warn_unclosed(&t1, &crate::template::var_syntax(), &mut diags);
        let (t2, unknown) = expand_vars(&t1, &self.vars);
        let ghost d2 = diags@.len();
        let mut i: usize = 0;
        while i < unknown.len()
            invariant
                i <= unknown.len(),
                diags@.len() == d2 + i,
            decreases unknown.len() - i,
        {
            diags.push(diag("unknown variable: ", &unknown[i]));
            i = i + 1;
        }
        proof {
            assert(unknown@.map_values(|v: Vec<char>| v@).len() == unknown@.len());
        }
        let ghost d3 = diags@.len();
        let t3 = self.expand_commands(&t2, host, &mut diags);
        let ghost outs = choose|outs: Seq<Seq<char>>|
            outs.len() == occurrences(t2@, 0, run_opener(), '(', ')').len() && t3@ == #[trigger] splice(
                t2@,
                0,
                run_opener(),
                '(',
                ')',
                outs,
            );
        let ghost d4 = diags@.len();
        warn_unclosed(&t3, &crate::template::setext_syntax(), &mut diags);
        let (t4, bad) = expand_setext(&t3);
        if bad > 0 {
            diags.push(diag("incomplete args for `%setext`", &Vec::new()));
        }
        warn_unclosed(&t4, &crate::template::alt_syntax(), &mut diags);
        let t5 = expand_alt(&t4);
        let t6 = expand_perc(&t5);
        let res = string_of(&t6);
        assert(outputs_from(self.template@, pairs_view(self.vars@), bx, outs, res@));
        assert(bx.len() == blocks(self.template@, 0).len());
        assert(blocks_ok(self.template@, pairs_view(self.vars@), bx));
        assert(run_result(self.template@, pairs_view(self.vars@), res@));
        (res, diags)
    }
}

} // verus!
