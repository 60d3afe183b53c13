//! The template engine: variable interpolation and macro expansion over a template text.
use vstd::prelude::*;
use crate::scan::{Tok, escape_scan, auto_escape};
use crate::text::{string_of, chars_of};
use crate::ast::pairs_view;

verus! {

broadcast use vstd::std_specs::vec::group_vec_axioms, vstd::seq::group_seq_axioms;

/// How a macro is written: the text that opens it, and the bracket characters whose
/// unescaped occurrences are counted to find the one that closes it.
pub struct Syntax {
    pub opener: Vec<char>,
    pub open: char,
    pub close: char,
}

/// `o` occurs in `s` at `i`.
pub open spec fn opens_at(s: Seq<char>, i: int, o: Seq<char>) -> bool {
    0 <= i && i + o.len() <= s.len() && s.subrange(i, i + o.len()) == o
}

/// The index of the closing bracket for a macro whose arguments start at `i`, with `d`
/// brackets opened inside so far; a backslash escapes the next character. -1 when the text
/// ends first.
pub open spec fn close_at(s: Seq<char>, i: int, d: nat, open: char, close: char) -> int
    decreases s.len() - i,
{
    if i < 0 || i >= s.len() {
        -1
    } else if s[i] == '\\' {
        if i + 1 >= s.len() {
            -1
        } else {
            close_at(s, i + 2, d, open, close)
        }
    } else if s[i] == close {
        if d == 0 {
            i
        } else {
            close_at(s, i + 1, (d - 1) as nat, open, close)
        }
    } else if s[i] == open {
        close_at(s, i + 1, d + 1, open, close)
    } else {
        close_at(s, i + 1, d, open, close)
    }
}

/// The closing index of a macro opened at `i`, or -1 when it is not closed.
pub open spec fn macro_end(s: Seq<char>, i: int, o: Seq<char>, open: char, close: char) -> int {
    close_at(s, i + o.len(), 0, open, close)
}

/// A complete macro starts at `i`.
pub open spec fn macro_at(s: Seq<char>, i: int, o: Seq<char>, open: char, close: char) -> bool {
    opens_at(s, i, o) && i <= macro_end(s, i, o, open, close) < s.len()
}

pub proof fn lemma_close_bounds(s: Seq<char>, i: int, d: nat, open: char, close: char)
    requires
        0 <= i,
    ensures
        close_at(s, i, d, open, close) == -1 || i <= close_at(s, i, d, open, close) < s.len(),
    decreases s.len() - i,
{
    if i < s.len() {
        if s[i] == '\\' {
            if i + 1 < s.len() {
                lemma_close_bounds(s, i + 2, d, open, close);
            }
        } else if s[i] == close {
            if d > 0 {
                lemma_close_bounds(s, i + 1, (d - 1) as nat, open, close);
            }
        } else if s[i] == open {
            lemma_close_bounds(s, i + 1, d + 1, open, close);
        } else {
            lemma_close_bounds(s, i + 1, d, open, close);
        }
    }
}

/// The argument texts of the complete macros from `i` on, left to right.
pub open spec fn occurrences(s: Seq<char>, i: int, o: Seq<char>, open: char, close: char) -> Seq<Seq<char>>
    decreases s.len() - i,
{
    if i < 0 || i >= s.len() {
        seq![]
    } else if macro_at(s, i, o, open, close) {
        let c = macro_end(s, i, o, open, close);
        seq![s.subrange(i + o.len(), c)] + occurrences(s, c + 1, o, open, close)
    } else {
        occurrences(s, i + 1, o, open, close)
    }
}

/// The text from `i` on with the complete macros replaced by `vals` in order (by the empty
/// text once `vals` runs out). An incomplete macro stays as it is.
pub open spec fn splice(s: Seq<char>, i: int, o: Seq<char>, open: char, close: char, vals: Seq<Seq<char>>) -> Seq<char>
    decreases s.len() - i,
{
    if i < 0 || i >= s.len() {
        seq![]
    } else if macro_at(s, i, o, open, close) {
        let c = macro_end(s, i, o, open, close);
        if vals.len() > 0 {
            vals[0] + splice(s, c + 1, o, open, close, vals.drop_first())
        } else {
            splice(s, c + 1, o, open, close, vals)
        }
    } else {
        seq![s[i]] + splice(s, i + 1, o, open, close, vals)
    }
}

pub(crate) fn opens_at_exec(s: &Vec<char>, i: usize, o: &Vec<char>) -> (r: bool)
    ensures
        r == opens_at(s@, i as int, o@),
{
    if o.len() > s.len() || i > s.len() - o.len() {
        return false;
    }
    let mut j: usize = 0;
    while j < o.len()
        invariant
            i + o.len() <= s.len(),
            j <= o.len(),
            forall|k: int| 0 <= k < j ==> s@[i + k] == o@[k],
        decreases o.len() - j,
    {
        if s[i + j] != o[j] {
            assert(s@.subrange(i as int, i + o.len())[j as int] != o@[j as int]);
            return false;
        }
        j = j + 1;
    }
    assert(s@.subrange(i as int, i + o.len()) =~= o@);
    true
}

/// The index of the closing bracket of a macro whose arguments start at `from`.
pub(crate) fn find_close(s: &Vec<char>, from: usize, open: char, close: char) -> (r: Option<usize>)
    ensures
        match r {
            Some(c) => close_at(s@, from as int, 0, open, close) == c as int,
            None => close_at(s@, from as int, 0, open, close) == -1,
        },
{
    let mut i: usize = from;
    let mut d: usize = 0;
    while i < s.len()
        invariant
            close_at(s@, from as int, 0, open, close) == close_at(s@, i as int, d as nat, open, close),
            d <= i,
        decreases s.len() - i,
    {
        if s[i] == '\\' {
            if i + 1 >= s.len() {
                return None;
            }
            i = i + 2;
        } else if s[i] == close {
            if d == 0 {
                return Some(i);
            }
            d = d - 1;
            i = i + 1;
        } else if s[i] == open {
            d = d + 1;
            i = i + 1;
        } else {
            i = i + 1;
        }
    }
    None
}

/// Where the complete macro at `i` closes, if one starts there.
fn macro_at_exec(s: &Vec<char>, i: usize, syn: &Syntax) -> (r: Option<usize>)
    requires
        i < s.len(),
    ensures
        match r {
            Some(c) => macro_at(s@, i as int, syn.opener@, syn.open, syn.close) && c as int == macro_end(
                s@,
                i as int,
                syn.opener@,
                syn.open,
                syn.close,
            ) && i + syn.opener@.len() <= c,
            None => !macro_at(s@, i as int, syn.opener@, syn.open, syn.close),
        },
{
    if !opens_at_exec(s, i, &syn.opener) {
        return None;
    }
    proof {
        lemma_close_bounds(s@, i + syn.opener@.len(), 0, syn.open, syn.close);
    }
    find_close(s, i + syn.opener.len(), syn.open, syn.close)
}

/// The argument texts of the complete macros of `s`, left to right.
pub fn macro_args(s: &Vec<char>, syn: &Syntax) -> (r: Vec<Vec<char>>)
    ensures
        r@.map_values(|v: Vec<char>| v@) == occurrences(s@, 0, syn.opener@, syn.open, syn.close),
{
    let ghost o = syn.opener@;
    let mut r: Vec<Vec<char>> = Vec::new();
    let mut i: usize = 0;
    assert(r@.map_values(|v: Vec<char>| v@) =~= Seq::<Seq<char>>::empty());
    while i < s.len()
        invariant
            i <= s.len(),
            o == syn.opener@,
            occurrences(s@, 0, o, syn.open, syn.close) == r@.map_values(|v: Vec<char>| v@) + occurrences(
                s@,
                i as int,
                o,
                syn.open,
                syn.close,
            ),
        decreases s.len() - i,
    {
        match macro_at_exec(s, i, syn) {
            Some(c) => {
                let mut a: Vec<char> = Vec::new();
                let mut j: usize = i + syn.opener.len();
                let ghost st = j;
                while j < c
                    invariant
                        st <= j <= c < s.len(),
                        a@ == s@.subrange(st as int, j as int),
                    decreases c - j,
                {
                    a.push(s[j]);
                    j = j + 1;
                    assert(a@ =~= s@.subrange(st as int, j as int));
                }
                let ghost r0 = r@.map_values(|v: Vec<char>| v@);
                r.push(a);
                assert(r@.map_values(|v: Vec<char>| v@) =~= r0.push(a@));
                assert(r0 + (seq![a@] + occurrences(s@, c + 1, o, syn.open, syn.close)) =~= r0.push(a@)
                    + occurrences(s@, c + 1, o, syn.open, syn.close));
                i = c + 1;
            },
            None => {
                i = i + 1;
            },
        }
    }
    assert(r@.map_values(|v: Vec<char>| v@) + Seq::<Seq<char>>::empty() =~= r@.map_values(|v: Vec<char>| v@));
    r
}

/// `s` with its complete macros replaced by `vals` in order.
pub fn splice_macros(s: &Vec<char>, syn: &Syntax, vals: &Vec<Vec<char>>) -> (r: Vec<char>)
    ensures
        r@ == splice(s@, 0, syn.opener@, syn.open, syn.close, vals@.map_values(|v: Vec<char>| v@)),
{
    let ghost o = syn.opener@;
    let ghost vs = vals@.map_values(|v: Vec<char>| v@);
    let mut r: Vec<char> = Vec::new();
    let mut i: usize = 0;
    let mut k: usize = 0;
    assert(vs.skip(0) =~= vs);
    while i < s.len()
        invariant
            i <= s.len(),
            k <= vals.len(),
            o == syn.opener@,
            vs == vals@.map_values(|v: Vec<char>| v@),
            splice(s@, 0, o, syn.open, syn.close, vs) == r@ + splice(s@, i as int, o, syn.open, syn.close, vs.skip(k as int)),
        decreases s.len() - i,
    {
        let ghost r0 = r@;
        let ghost k0 = k;
        match macro_at_exec(s, i, syn) {
            Some(c) => {
                if k < vals.len() {
                    let v = &vals[k];
                    let mut j: usize = 0;
                    while j < v.len()
                        invariant
                            j <= v.len(),
                            r@ == r0 + v@.take(j as int),
                        decreases v.len() - j,
                    {
                        r.push(v[j]);
                        j = j + 1;
                        assert(r@ =~= r0 + v@.take(j as int));
                    }
                    assert(v@.take(j as int) =~= vs.skip(k as int)[0]);
                    assert(vs.skip(k as int).drop_first() =~= vs.skip(k + 1));
                    k = k + 1;
                    assert(r0 + (vs.skip(k0 as int)[0] + splice(s@, c + 1, o, syn.open, syn.close, vs.skip(k as int)))
                        =~= r@ + splice(s@, c + 1, o, syn.open, syn.close, vs.skip(k as int)));
                } else {
                    assert(vs.skip(k as int).len() == 0);
                }
                i = c + 1;
            },
            None => {
                r.push(s[i]);
                assert(r@ =~= r0 + seq![s@[i as int]]);
                i = i + 1;
            },
        }
    }
    assert(r@ + Seq::<char>::empty() =~= r@);
    r
}

/// The value bound to `k`: the last pair with that key wins.
pub open spec fn lookup(ps: Seq<(Seq<char>, Seq<char>)>, k: Seq<char>) -> Option<Seq<char>>
    decreases ps.len(),
{
    if ps.len() == 0 {
        None
    } else if ps.last().0 == k {
        Some(ps.last().1)
    } else {
        lookup(ps.drop_last(), k)
    }
}

/// The text a variable reference expands to: its value, or nothing when it is unbound.
pub open spec fn var_value(ps: Seq<(Seq<char>, Seq<char>)>, name: Seq<char>) -> Seq<char> {
    match lookup(ps, name) {
        Some(v) => v,
        None => seq![],
    }
}

/// The names among `names` that `ps` binds no value to, in order.
pub open spec fn unbound_names(names: Seq<Seq<char>>, ps: Seq<(Seq<char>, Seq<char>)>) -> Seq<Seq<char>>
    decreases names.len(),
{
    if names.len() == 0 {
        seq![]
    } else {
        unbound_names(names.drop_last(), ps) + if lookup(ps, names.last()) is None {
            seq![names.last()]
        } else {
            seq![]
        }
    }
}

/// How many of the argument texts are malformed `%setext` arguments.
pub open spec fn setext_bad(args: Seq<Seq<char>>) -> nat
    decreases args.len(),
{
    if args.len() == 0 {
        0
    } else {
        setext_bad(args.drop_last()) + if setext_ok(args.last()) {
            0nat
        } else {
            1nat
        }
    }
}

/// How many openers `o` from `i` on have no closing bracket after them.
pub open spec fn unclosed(s: Seq<char>, i: int, o: Seq<char>, open: char, close: char) -> nat
    decreases s.len() - i,
{
    if i < 0 || i >= s.len() {
        0
    } else {
        (if opens_at(s, i, o) && close_at(s, i + o.len(), 0, open, close) == -1 {
            1nat
        } else {
            0nat
        }) + unclosed(s, i + 1, o, open, close)
    }
}

pub open spec fn var_opener() -> Seq<char> {
    seq!['%', '{']
}

/// `s` with every complete `%{name}` replaced by the value of `name` in `ps`.
pub open spec fn vars_model(s: Seq<char>, ps: Seq<(Seq<char>, Seq<char>)>) -> Seq<char> {
    splice(
        s,
        0,
        var_opener(),
        '{',
        '}',
        occurrences(s, 0, var_opener(), '{', '}').map_values(|a: Seq<char>| var_value(ps, a)),
    )
}

/// The first non-empty alternative among `:`-separated ones (escapes resolved), or nothing;
/// `cur` is the alternative read so far.
pub open spec fn alt_value(ts: Seq<Tok>, cur: Seq<char>) -> Seq<char>
    decreases ts.len(),
{
    if ts.len() == 0 {
        cur
    } else if ts[0] == (false, ':') {
        if cur.len() > 0 {
            cur
        } else {
            alt_value(ts.drop_first(), seq![])
        }
    } else {
        alt_value(ts.drop_first(), cur.push(ts[0].1))
    }
}

pub open spec fn alt_opener() -> Seq<char> {
    seq!['%', 'a', 'l', 't', '(']
}

/// `s` with every complete `%alt(a:b:...)` replaced by its first non-empty alternative.
pub open spec fn alt_model(s: Seq<char>) -> Seq<char> {
    splice(
        s,
        0,
        alt_opener(),
        '(',
        ')',
        occurrences(s, 0, alt_opener(), '(', ')').map_values(|a: Seq<char>| alt_value(escape_scan(a), seq![])),
    )
}

/// The path `path` with its extension replaced by `ext`.
pub uninterp spec fn with_extension_of(path: Seq<char>, ext: Seq<char>) -> Seq<char>;

/// `e` holds no path separator.
pub open spec fn no_separator(e: Seq<char>) -> bool {
    forall|k: int| 0 <= k < e.len() ==> e[k] != '/' && e[k] != '\\'
}

/// Relies on `std::path::Path::with_extension`, the result read back as text: it depends on
/// the path and the extension alone. It panics on an extension holding a path separator,
/// which `requires` leaves out.
#[verifier::external_body]
fn path_with_extension(path: &str, ext: &str) -> (r: String)
    requires
        no_separator(ext@),
    ensures
        r@ == with_extension_of(path@, ext@),
{
    std::path::Path::new(path).with_extension(ext).to_string_lossy().to_string()
}

/// The arguments of `%setext` are well formed: a `:` separates an extension without path
/// separators from the path.
pub open spec fn setext_ok(a: Seq<char>) -> bool {
    let i = crate::command::first_index(a, |c: char| c == ':');
    i < a.len() && no_separator(a.take(i))
}

/// The text of `%setext(ext:path)`: `path` with extension `ext`, or nothing when the
/// arguments are malformed.
pub open spec fn setext_value(a: Seq<char>) -> Seq<char> {
    let i = crate::command::first_index(a, |c: char| c == ':');
    if setext_ok(a) {
        with_extension_of(a.skip(i + 1), a.take(i))
    } else {
        seq![]
    }
}

pub open spec fn setext_opener() -> Seq<char> {
    seq!['%', 's', 'e', 't', 'e', 'x', 't', '(']
}

/// `s` with every complete `%setext(ext:path)` replaced by the renamed path.
pub open spec fn setext_model(s: Seq<char>) -> Seq<char> {
    splice(
        s,
        0,
        setext_opener(),
        '(',
        ')',
        occurrences(s, 0, setext_opener(), '(', ')').map_values(|a: Seq<char>| setext_value(a)),
    )
}

/// `s` with every `%perc` replaced by `%`, scanning from the left.
pub open spec fn perc_model(s: Seq<char>) -> Seq<char>
    decreases s.len(),
{
    if s.len() >= 5 && s.take(5) == seq!['%', 'p', 'e', 'r', 'c'] {
        seq!['%'] + perc_model(s.skip(5))
    } else if s.len() == 0 {
        seq![]
    } else {
        seq![s[0]] + perc_model(s.skip(1))
    }
}

pub(crate) fn same_chars(a: &Vec<char>, b: &Vec<char>) -> (r: bool)
    ensures
        r == (a@ == b@),
{
    if a.len() != b.len() {
        return false;
    }
    let mut i: usize = 0;
    while i < a.len()
        invariant
            a.len() == b.len(),
            i <= a.len(),
            forall|j: int| 0 <= j < i ==> a@[j] == b@[j],
        decreases a.len() - i,
    {
        if a[i] != b[i] {
            return false;
        }
        i = i + 1;
    }
    assert(a@ =~= b@);
    true
}

/// The value bound to `name` in `vars`; the last pair with that key wins.
pub fn lookup_var(vars: &Vec<(String, String)>, name: &Vec<char>) -> (r: Option<Vec<char>>)
    ensures
        match lookup(pairs_view(vars@), name@) {
            Some(v) => r is Some && r->Some_0@ == v,
            None => r is None,
        },
{
    let mut i: usize = vars.len();
    assert(vars@.take(i as int) =~= vars@);
    while i > 0
        invariant
            i <= vars.len(),
            lookup(pairs_view(vars@), name@) == lookup(pairs_view(vars@.take(i as int)), name@),
        decreases i,
    {
        let key = chars_of(vars[i - 1].0.as_str());
        assert(pairs_view(vars@.take(i as int)).drop_last() =~= pairs_view(vars@.take(i - 1)));
        if same_chars(&key, name) {
            return Some(chars_of(vars[i - 1].1.as_str()));
        }
        i = i - 1;
    }
    None
}

pub(crate) fn var_syntax() -> (r: Syntax)
    ensures
        r.opener@ == var_opener(),
        r.open == '{',
        r.close == '}',
{
    Syntax { opener: vec!['%', '{'], open: '{', close: '}' }
}

pub(crate) fn alt_syntax() -> (r: Syntax)
    ensures
        r.opener@ == alt_opener(),
        r.open == '(',
        r.close == ')',
{
    Syntax { opener: vec!['%', 'a', 'l', 't', '('], open: '(', close: ')' }
}

pub(crate) fn setext_syntax() -> (r: Syntax)
    ensures
        r.opener@ == setext_opener(),
        r.open == '(',
        r.close == ')',
{
    Syntax { opener: vec!['%', 's', 'e', 't', 'e', 'x', 't', '('], open: '(', close: ')' }
}

/// The syntax of `%run(cmd args...)`.
pub fn run_syntax() -> (r: Syntax)
    ensures
        r.opener@ == seq!['%', 'r', 'u', 'n', '('],
        r.open == '(',
        r.close == ')',
{
    Syntax { opener: vec!['%', 'r', 'u', 'n', '('], open: '(', close: ')' }
}

/// Replaces every complete `%{name}` of `s` by the value of `name` in `vars`; a name
/// without a value gives the empty text. Returns the unbound names too.
pub fn expand_vars(s: &Vec<char>, vars: &Vec<(String, String)>) -> (r: (Vec<char>, Vec<Vec<char>>))
    ensures
        r.0@ == vars_model(s@, pairs_view(vars@)),
        r.1@.map_values(|v: Vec<char>| v@) == unbound_names(
            occurrences(s@, 0, var_opener(), '{', '}'),
            pairs_view(vars@),
        ),
{
    let syn = var_syntax();
    let args = macro_args(s, &syn);
    let ghost ps = pairs_view(vars@);
    let ghost occ = occurrences(s@, 0, var_opener(), '{', '}');
    let mut vals: Vec<Vec<char>> = Vec::new();
    let mut unknown: Vec<Vec<char>> = Vec::new();
    let mut i: usize = 0;
    assert(unknown@.map_values(|v: Vec<char>| v@) =~= unbound_names(occ.take(0), ps));
    while i < args.len()
        invariant
            i <= args.len(),
            args@.map_values(|v: Vec<char>| v@) == occ,
            occ == occurrences(s@, 0, var_opener(), '{', '}'),
            ps == pairs_view(vars@),
            vals@.map_values(|v: Vec<char>| v@) == occ.take(i as int).map_values(|a: Seq<char>| var_value(ps, a)),
            unknown@.map_values(|v: Vec<char>| v@) == unbound_names(occ.take(i as int), ps),
        decreases args.len() - i,
    {
        let ghost v0 = vals@.map_values(|v: Vec<char>| v@);
        let ghost u0 = unknown@.map_values(|v: Vec<char>| v@);
        assert(occ.take(i + 1).drop_last() =~= occ.take(i as int));
        assert(args@[i as int]@ == occ[i as int]);
        assert(occ.take(i + 1) =~= occ.take(i as int).push(occ[i as int]));
        match lookup_var(vars, &args[i]) {
            Some(v) => {
                vals.push(v);
            },
            None => {
                vals.push(Vec::new());
                let n = args[i].clone();
                unknown.push(n);
                assert(unknown@.map_values(|v: Vec<char>| v@) =~= u0.push(occ[i as int]));
            },
        }
        assert(unknown@.map_values(|v: Vec<char>| v@) =~= unbound_names(occ.take(i + 1), ps));
        assert(vals@.map_values(|v: Vec<char>| v@) =~= v0.push(var_value(ps, occ[i as int])));
        i = i + 1;
        assert(vals@.map_values(|v: Vec<char>| v@) =~= occ.take(i as int).map_values(|a: Seq<char>| var_value(ps, a)));
    }
    assert(occ.take(i as int) =~= occ);
    (splice_macros(s, &syn, &vals), unknown)
}

/// The first non-empty `:`-separated alternative of `a`, escapes resolved.
pub fn alt_of(a: &Vec<char>) -> (r: Vec<char>)
    ensures
        r@ == alt_value(escape_scan(a@), seq![]),
{
    let ts = auto_escape(a);
    let mut cur: Vec<char> = Vec::new();
    let mut i: usize = 0;
    assert(ts@.skip(0) =~= ts@);
    while i < ts.len()
        invariant
            i <= ts.len(),
            ts@ == escape_scan(a@),
            alt_value(ts@, seq![]) == alt_value(ts@.skip(i as int), cur@),
        decreases ts.len() - i,
    {
        assert(ts@.skip(i as int).drop_first() =~= ts@.skip(i + 1));
        assert(ts@.skip(i as int)[0] == ts@[i as int]);
        if ts[i].0 == false && ts[i].1 == ':' {
            if cur.len() > 0 {
                return cur;
            }
            assert(cur@ =~= Seq::<char>::empty());
        } else {
            cur.push(ts[i].1);
        }
        i = i + 1;
    }
    cur
}

/// The renamed path of `%setext(ext:path)`'s arguments, or `None` when they are malformed.
pub fn setext_of(a: &Vec<char>) -> (r: Option<Vec<char>>)
    ensures
        r is Some <==> setext_ok(a@),
        r is Some ==> r->Some_0@ == setext_value(a@),
{
    let mut i: usize = 0;
    while i < a.len() && a[i] != ':'
        invariant
            i <= a.len(),
            forall|j: int| 0 <= j < i ==> a@[j] != ':',
        decreases a.len() - i,
    {
        i = i + 1;
    }
    proof {
        crate::command::lemma_first_index(a@, |c: char| c == ':', i as int);
    }
    if i == a.len() {
        return None;
    }
    let mut ext: Vec<char> = Vec::new();
    let mut path: Vec<char> = Vec::new();
    let mut j: usize = 0;
    while j < a.len()
        invariant
            i < a.len(),
            j <= a.len(),
            ext@ == a@.take(if j < i { j as int } else { i as int }),
            path@ == a@.subrange(i + 1, if j > i + 1 { j as int } else { i + 1 }),
        decreases a.len() - j,
    {
        if j < i {
            ext.push(a[j]);
        } else if j > i {
            path.push(a[j]);
        }
        j = j + 1;
        assert(ext@ =~= a@.take(if j < i { j as int } else { i as int }));
        assert(path@ =~= a@.subrange(i + 1, if j > i + 1 { j as int } else { i + 1 }));
    }
    assert(path@ =~= a@.skip(i + 1));
    assert(ext@ =~= a@.take(i as int));
    let mut k: usize = 0;
    while k < ext.len()
        invariant
            k <= ext.len(),
            i < a.len(),
            ext@ == a@.take(i as int),
            crate::command::first_index(a@, |c: char| c == ':') == i,
            forall|q: int| 0 <= q < k ==> ext@[q] != '/' && ext@[q] != '\\',
        decreases ext.len() - k,
    {
        if ext[k] == '/' || ext[k] == '\\' {
            assert(!no_separator(a@.take(i as int))) by {
                assert(a@.take(i as int)[k as int] == ext@[k as int]);
            }
            return None;
        }
        k = k + 1;
    }
    let p = string_of(&path);
    let e = string_of(&ext);
    let r = path_with_extension(p.as_str(), e.as_str());
    Some(chars_of(r.as_str()))
}

/// Replaces every complete `%alt(...)` of `s` by its first non-empty alternative.
pub fn expand_alt(s: &Vec<char>) -> (r: Vec<char>)
    ensures
        r@ == alt_model(s@),
{
    let syn = alt_syntax();
    let args = macro_args(s, &syn);
    let ghost occ = occurrences(s@, 0, alt_opener(), '(', ')');
    let mut vals: Vec<Vec<char>> = Vec::new();
    let mut i: usize = 0;
    while i < args.len()
        invariant
            i <= args.len(),
            args@.map_values(|v: Vec<char>| v@) == occ,
            occ == occurrences(s@, 0, alt_opener(), '(', ')'),
            vals@.map_values(|v: Vec<char>| v@) == occ.take(i as int).map_values(|a: Seq<char>| alt_value(escape_scan(a), seq![])),
        decreases args.len() - i,
    {
        let ghost v0 = vals@.map_values(|v: Vec<char>| v@);
        assert(args@[i as int]@ == occ[i as int]);
        assert(occ.take(i + 1) =~= occ.take(i as int).push(occ[i as int]));
        vals.push(alt_of(&args[i]));
        assert(vals@.map_values(|v: Vec<char>| v@) =~= v0.push(alt_value(escape_scan(occ[i as int]), seq![])));
        i = i + 1;
        assert(vals@.map_values(|v: Vec<char>| v@) =~= occ.take(i as int).map_values(|a: Seq<char>| alt_value(escape_scan(a), seq![])));
    }
    assert(occ.take(i as int) =~= occ);
    splice_macros(s, &syn, &vals)
}

/// Replaces every complete `%setext(ext:path)` of `s` by the renamed path (by nothing when
/// the arguments lack a `:`), and counts the malformed ones.
pub fn expand_setext(s: &Vec<char>) -> (r: (Vec<char>, usize))
    ensures
        r.0@ == setext_model(s@),
        r.1 == setext_bad(occurrences(s@, 0, setext_opener(), '(', ')')),
{
    let syn = setext_syntax();
    let args = macro_args(s, &syn);
    let ghost occ = occurrences(s@, 0, setext_opener(), '(', ')');
    let mut vals: Vec<Vec<char>> = Vec::new();
    let mut bad: usize = 0;
    let mut i: usize = 0;
    assert(occ.take(0) =~= Seq::<Seq<char>>::empty());
    while i < args.len()
        invariant
            i <= args.len(),
            bad <= i,
            bad == setext_bad(occ.take(i as int)),
            args@.map_values(|v: Vec<char>| v@) == occ,
            occ == occurrences(s@, 0, setext_opener(), '(', ')'),
            vals@.map_values(|v: Vec<char>| v@) == occ.take(i as int).map_values(|a: Seq<char>| setext_value(a)),
        decreases args.len() - i,
    {
        let ghost v0 = vals@.map_values(|v: Vec<char>| v@);
        assert(args@[i as int]@ == occ[i as int]);
        assert(occ.take(i + 1) =~= occ.take(i as int).push(occ[i as int]));
        assert(occ.take(i + 1).drop_last() =~= occ.take(i as int));
        match setext_of(&args[i]) {
            Some(v) => vals.push(v),
            None => {
                vals.push(Vec::new());
                bad = bad + 1;
            },
        }
        assert(vals@.map_values(|v: Vec<char>| v@) =~= v0.push(setext_value(occ[i as int])));
        i = i + 1;
        assert(vals@.map_values(|v: Vec<char>| v@) =~= occ.take(i as int).map_values(|a: Seq<char>| setext_value(a)));
    }
    assert(occ.take(i as int) =~= occ);
    (splice_macros(s, &syn, &vals), bad)
}

/// Replaces every `%perc` of `s` by `%`.
pub fn expand_perc(s: &Vec<char>) -> (r: Vec<char>)
    ensures
        r@ == perc_model(s@),
{
    let mut r: Vec<char> = Vec::new();
    let mut i: usize = 0;
    assert(s@.skip(0) =~= s@);
    while i < s.len()
        invariant
            i <= s.len(),
            perc_model(s@) == r@ + perc_model(s@.skip(i as int)),
        decreases s.len() - i,
    {
        let ghost rest = s@.skip(i as int);
        let ghost r0 = r@;
        if s.len() - i >= 5 && s[i] == '%' && s[i + 1] == 'p' && s[i + 2] == 'e' && s[i + 3] == 'r' && s[i + 4] == 'c' {
            assert(rest.take(5) =~= seq!['%', 'p', 'e', 'r', 'c']);
            assert(rest.skip(5) =~= s@.skip(i + 5));
            r.push('%');
            i = i + 5;
        } else {
            assert(!(rest.len() >= 5 && rest.take(5) == seq!['%', 'p', 'e', 'r', 'c'])) by {
                if rest.len() >= 5 && rest.take(5) == seq!['%', 'p', 'e', 'r', 'c'] {
                    assert(rest.take(5)[0] == s@[i as int]);
                    assert(rest.take(5)[1] == s@[i + 1]);
                    assert(rest.take(5)[2] == s@[i + 2]);
                    assert(rest.take(5)[3] == s@[i + 3]);
                    assert(rest.take(5)[4] == s@[i + 4]);
                }
            }
            assert(rest.skip(1) =~= s@.skip(i + 1));
            r.push(s[i]);
            i = i + 1;
        }
        assert(r0 + perc_model(rest) =~= r@ + perc_model(s@.skip(i as int)));
    }
    assert(s@.skip(i as int) =~= Seq::<char>::empty());
    assert(r@ + Seq::<char>::empty() =~= r@);
    r
}

/// The arguments of an inline macro whose text after the name is `s`: the text between the
/// opening `(` at the start and its matching `)`, brackets counted and backslash escapes
/// honoured; `None` when `s` does not start with `(` or the bracket is never closed.
pub fn parse_args(s: &Vec<char>) -> (r: Option<Vec<char>>)
    ensures
        match r {
            Some(a) => s@.len() > 0 && s@[0] == '(' && close_at(s@, 1, 0, '(', ')') >= 1 && a@ == s@.subrange(
                1,
                close_at(s@, 1, 0, '(', ')'),
            ),
            None => s@.len() == 0 || s@[0] != '(' || close_at(s@, 1, 0, '(', ')') == -1,
        },
{
    if s.len() == 0 || s[0] != '(' {
        return None;
    }
    proof {
        lemma_close_bounds(s@, 1, 0, '(', ')');
    }
    match find_close(s, 1, '(', ')') {
        None => None,
        Some(c) => {
            let mut a: Vec<char> = Vec::new();
            let mut j: usize = 1;
            while j < c
                invariant
                    1 <= j <= c < s.len(),
                    a@ == s@.subrange(1, j as int),
                decreases c - j,
            {
                a.push(s[j]);
                j = j + 1;
                assert(a@ =~= s@.subrange(1, j as int));
            }
            Some(a)
        },
    }
}

/// How many openers of `syn` in `s` have no closing bracket after them.
pub fn unclosed_count(s: &Vec<char>, syn: &Syntax) -> (r: usize)
    ensures
        r == unclosed(s@, 0, syn.opener@, syn.open, syn.close),
{
    let mut n: usize = 0;
    let mut p: usize = 0;
    while p < s.len()
        invariant
            n <= p <= s.len(),
            unclosed(s@, 0, syn.opener@, syn.open, syn.close) == n + unclosed(s@, p as int, syn.opener@, syn.open, syn.close),
        decreases s.len() - p,
    {
        if opens_at_exec(s, p, &syn.opener) {
            if find_close(s, p + syn.opener.len(), syn.open, syn.close).is_none() {
                n = n + 1;
            }
        }
        p = p + 1;
    }
    n
}

} // verus!
