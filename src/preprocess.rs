//! Line-level passes over the source: continuations, metadata, comments, and single-line
//! command sugar.
use vstd::prelude::*;
use crate::command::{is_space, is_space_char, first_index, lemma_first_index};
use crate::parser::ParseCommandErr;
use crate::text::{string_of, copy_range};
use crate::ast::pairs_view;
use crate::command::lemma_pairs_view_push;

verus! {

broadcast use vstd::std_specs::vec::group_vec_axioms, vstd::seq::group_seq_axioms;

/// `s` with every backslash-newline pair removed, scanning from the left.
pub open spec fn strip_continuations(s: Seq<char>) -> Seq<char>
    decreases s.len(),
{
    if s.len() >= 2 && s[0] == '\\' && s[1] == '\n' {
        strip_continuations(s.skip(2))
    } else if s.len() == 0 {
        seq![]
    } else {
        seq![s[0]] + strip_continuations(s.skip(1))
    }
}

/// The pieces of `s` between occurrences of `c`, the piece being read starting with `cur`.
pub open spec fn split_from(s: Seq<char>, c: char, cur: Seq<char>) -> Seq<Seq<char>>
    decreases s.len(),
{
    if s.len() == 0 {
        seq![cur]
    } else if s[0] == c {
        seq![cur] + split_from(s.skip(1), c, seq![])
    } else {
        split_from(s.skip(1), c, cur.push(s[0]))
    }
}

/// The lines of `s`: there is always at least one, and a trailing newline ends with an empty one.
pub open spec fn lines_of(s: Seq<char>) -> Seq<Seq<char>> {
    split_from(s, '\n', seq![])
}

/// The lines joined with newlines.
pub open spec fn join_lines(ls: Seq<Seq<char>>) -> Seq<char>
    decreases ls.len(),
{
    if ls.len() == 0 {
        seq![]
    } else if ls.len() == 1 {
        ls[0]
    } else {
        join_lines(ls.drop_last()) + seq!['\n'] + ls.last()
    }
}

/// A `#` at `j` that is not preceded by a backslash starts a comment.
pub open spec fn comment_at(line: Seq<char>, j: int) -> bool {
    line[j] == '#' && (j == 0 || line[j - 1] != '\\')
}

/// Where the comment of `line` starts, looking from `j`; the length when there is none.
pub open spec fn comment_from(line: Seq<char>, j: int) -> int
    decreases line.len() - j,
{
    if j >= line.len() {
        line.len() as int
    } else if comment_at(line, j) {
        j
    } else {
        comment_from(line, j + 1)
    }
}

/// The metadata pair of a line that starts with `!`: after the `!` and any whitespace, the
/// key runs to the next whitespace, and the value from the next non-whitespace character to
/// the end of the line.
pub open spec fn meta_pair(line: Seq<char>) -> Option<(Seq<char>, Seq<char>)> {
    let body = line.skip(1);
    let a = first_index(body, |c: char| !is_space(c));
    let key_on = body.skip(a);
    let i = first_index(key_on, |c: char| is_space(c));
    let rest = key_on.skip(i);
    let j = first_index(rest, |c: char| !is_space(c));
    if i < key_on.len() && j < rest.len() {
        Some((key_on.take(i), rest.skip(j)))
    } else {
        None
    }
}

/// Metadata pairs and body lines of a sequence of lines, or the error of the first malformed
/// metadata line. Every other line is kept, cut at its comment.
pub open spec fn scan_lines(ls: Seq<Seq<char>>) -> Result<
    (Seq<(Seq<char>, Seq<char>)>, Seq<Seq<char>>),
    ParseCommandErr,
>
    decreases ls.len(),
{
    if ls.len() == 0 {
        Ok((seq![], seq![]))
    } else {
        match scan_lines(ls.drop_last()) {
            Err(e) => Err(e),
            Ok(acc) => {
                let line = ls.last();
                if line.len() > 0 && line[0] == '!' {
                    match meta_pair(line) {
                        None => Err(ParseCommandErr::MalformedMetadataLine),
                        Some(p) => Ok((acc.0.push(p), acc.1)),
                    }
                } else {
                    Ok((acc.0, acc.1.push(line.take(comment_from(line, 0)))))
                }
            },
        }
    }
}

/// The metadata pairs and the body of a source text.
pub open spec fn preprocess_model(s: Seq<char>) -> Result<
    (Seq<(Seq<char>, Seq<char>)>, Seq<char>),
    ParseCommandErr,
> {
    match scan_lines(lines_of(strip_continuations(s))) {
        Err(e) => Err(e),
        Ok(r) => Ok((r.0, join_lines(r.1))),
    }
}

/// A line starting with `.` wrapped in brackets in place of the dot.
pub open spec fn desugar_line(line: Seq<char>) -> Seq<char> {
    if line.len() > 0 && line[0] == '.' {
        seq!['['] + line.skip(1) + seq![']']
    } else {
        line
    }
}

/// Every line rewritten by `desugar_line`.
pub open spec fn desugar_model(s: Seq<char>) -> Seq<char> {
    join_lines(lines_of(s).map_values(|l: Seq<char>| desugar_line(l)))
}

fn strip_continuations_exec(s: &Vec<char>) -> (r: Vec<char>)
    ensures
        r@ == strip_continuations(s@),
{
    let mut r: Vec<char> = Vec::new();
    let mut i: usize = 0;
    assert(s@.skip(0) =~= s@);
    while i < s.len()
        invariant
            i <= s.len(),
            strip_continuations(s@) == r@ + strip_continuations(s@.skip(i as int)),
        decreases s.len() - i,
    {
        let ghost rest = s@.skip(i as int);
        if i + 1 < s.len() && s[i] == '\\' && s[i + 1] == '\n' {
            assert(rest.skip(2) =~= s@.skip(i + 2));
            i = i + 2;
        } else {
            assert(rest.skip(1) =~= s@.skip(i + 1));
            let ghost r0 = r@;
            r.push(s[i]);
            i = i + 1;
            assert(r0 + (seq![rest[0]] + strip_continuations(rest.skip(1))) =~= r@ + strip_continuations(s@.skip(i as int)));
        }
    }
    assert(s@.skip(i as int) =~= Seq::<char>::empty());
    assert(r@ + Seq::<char>::empty() =~= r@);
    r
}

/// The pieces of `s` between occurrences of `c`.
pub fn split_at_char(s: &Vec<char>, c: char) -> (r: Vec<Vec<char>>)
    ensures
        r@.map_values(|l: Vec<char>| l@) == split_from(s@, c, seq![]),
{
    let mut r: Vec<Vec<char>> = Vec::new();
    let mut cur: Vec<char> = Vec::new();
    let mut i: usize = 0;
    assert(s@.skip(0) =~= s@);
    assert(r@.map_values(|l: Vec<char>| l@) + split_from(s@, c, seq![]) =~= split_from(s@, c, seq![]));
    while i < s.len()
        invariant
            i <= s.len(),
            split_from(s@, c, seq![]) == r@.map_values(|l: Vec<char>| l@) + split_from(s@.skip(i as int), c, cur@),
        decreases s.len() - i,
    {
        let ghost rest = s@.skip(i as int);
        let ghost r0 = r@.map_values(|l: Vec<char>| l@);
        assert(rest.skip(1) =~= s@.skip(i + 1));
        if s[i] == c {
            let done = cur;
            cur = Vec::new();
            r.push(done);
            assert(r@.map_values(|l: Vec<char>| l@) =~= r0.push(done@));
            assert(cur@ =~= Seq::<char>::empty());
            assert(r0 + (seq![done@] + split_from(s@.skip(i + 1), c, seq![])) =~= r0.push(done@) + split_from(s@.skip(i + 1), c, cur@));
        } else {
            cur.push(s[i]);
        }
        i = i + 1;
    }
    let ghost r0 = r@.map_values(|l: Vec<char>| l@);
    assert(s@.skip(i as int) =~= Seq::<char>::empty());
    r.push(cur);
    assert(r@.map_values(|l: Vec<char>| l@) =~= r0 + seq![cur@]);
    r
}

proof fn lemma_join_push(ls: Seq<Seq<char>>, l: Seq<char>)
    ensures
        ls.len() == 0 ==> join_lines(ls.push(l)) == l,
        ls.len() > 0 ==> join_lines(ls.push(l)) == join_lines(ls) + seq!['\n'] + l,
{
    assert(ls.push(l).drop_last() =~= ls);
    if ls.len() == 0 {
        assert(ls.push(l)[0] == l);
    }
}

/// Appends `line` to `out` as a further line of a text holding `n` lines so far.
fn push_line(out: &mut Vec<char>, line: &Vec<char>, n: usize, Ghost(ls): Ghost<Seq<Seq<char>>>)
    requires
        old(out)@ == join_lines(ls),
        n == ls.len(),
    ensures
        final(out)@ == join_lines(ls.push(line@)),
{
    proof {
        lemma_join_push(ls, line@);
    }
    let ghost o = out@;
    if n > 0 {
        out.push('\n');
    }
    let ghost o2 = out@;
    let mut i: usize = 0;
    while i < line.len()
        invariant
            i <= line.len(),
            out@ == o2 + line@.take(i as int),
        decreases line.len() - i,
    {
        out.push(line[i]);
        i = i + 1;
        assert(out@ =~= o2 + line@.take(i as int));
    }
    assert(line@.take(i as int) =~= line@);
    if n == 0 {
        assert(out@ =~= line@);
    } else {
        assert(out@ =~= o + seq!['\n'] + line@);
    }
}

/// Rewrites every line that starts with `.` into a bracketed command call.
pub fn desugar_slfcalls(s: String) -> (r: String)
    ensures
        r@ == desugar_model(s@),
{
    let cs = crate::text::chars_of(s.as_str());
    let lines = split_at_char(&cs, '\n');
    let ghost ls = lines_of(s@);
    let mut out: Vec<char> = Vec::new();
    let mut i: usize = 0;
    assert(ls.map_values(|l: Seq<char>| desugar_line(l)).take(0) =~= Seq::<Seq<char>>::empty());
    while i < lines.len()
        invariant
            i <= lines.len(),
            lines@.map_values(|l: Vec<char>| l@) == ls,
            out@ == join_lines(ls.map_values(|l: Seq<char>| desugar_line(l)).take(i as int)),
        decreases lines.len() - i,
    {
        let line = &lines[i];
        assert(line@ == ls[i as int]);
        let mut d: Vec<char> = Vec::new();
        if line.len() > 0 && line[0] == '.' {
            d.push('[');
            let mut j: usize = 1;
            while j < line.len()
                invariant
                    1 <= j <= line.len(),
                    d@ == seq!['['] + line@.subrange(1, j as int),
                decreases line.len() - j,
            {
                d.push(line[j]);
                j = j + 1;
                assert(d@ =~= seq!['['] + line@.subrange(1, j as int));
            }
            d.push(']');
            assert(d@ =~= desugar_line(line@));
        } else {
            let mut j: usize = 0;
            while j < line.len()
                invariant
                    j <= line.len(),
                    d@ == line@.take(j as int),
                decreases line.len() - j,
            {
                d.push(line[j]);
                j = j + 1;
                assert(d@ =~= line@.take(j as int));
            }
            assert(d@ =~= desugar_line(line@));
        }
        let ghost m = ls.map_values(|l: Seq<char>| desugar_line(l));
        push_line(&mut out, &d, i, Ghost(m.take(i as int)));
        assert(m.take(i as int).push(d@) =~= m.take(i + 1));
        i = i + 1;
    }
    assert(ls.map_values(|l: Seq<char>| desugar_line(l)).take(i as int) =~= ls.map_values(|l: Seq<char>| desugar_line(l)));
    string_of(&out)
}

proof fn lemma_scan_lines_err(ls: Seq<Seq<char>>, k: int)
    requires
        0 <= k <= ls.len(),
        scan_lines(ls.take(k)) is Err,
    ensures
        scan_lines(ls) == scan_lines(ls.take(k)),
    decreases ls.len() - k,
{
    if k < ls.len() {
        assert(ls.take(k + 1).drop_last() =~= ls.take(k));
        lemma_scan_lines_err(ls, k + 1);
    } else {
        assert(ls.take(k) =~= ls);
    }
}

/// The metadata pair of a line that starts with `!`, or `None` when it is malformed.
fn read_meta_line(line: &Vec<char>) -> (r: Option<(String, String)>)
    requires
        line.len() > 0,
        line@[0] == '!',
    ensures
        match meta_pair(line@) {
            Some(p) => r is Some && r->Some_0.0@ == p.0 && r->Some_0.1@ == p.1,
            None => r is None,
        },
{
    let ghost body = line@.skip(1);
    let mut a: usize = 1;
    while a < line.len() && is_space_char(line[a])
        invariant
            1 <= a <= line.len(),
            body == line@.skip(1),
            forall|j: int| 0 <= j < a - 1 ==> is_space(#[trigger] body[j]),
        decreases line.len() - a,
    {
        a = a + 1;
    }
    proof {
        lemma_first_index(body, |c: char| !is_space(c), a - 1);
    }
    let ghost key_on = body.skip(a - 1);
    assert(key_on =~= line@.skip(a as int));
    let mut i: usize = a;
    while i < line.len() && !is_space_char(line[i])
        invariant
            a <= i <= line.len(),
            key_on == line@.skip(a as int),
            forall|j: int| 0 <= j < i - a ==> !is_space(#[trigger] key_on[j]),
        decreases line.len() - i,
    {
        i = i + 1;
    }
    proof {
        lemma_first_index(key_on, |c: char| is_space(c), i - a);
    }
    let ghost rest = key_on.skip(i - a);
    assert(rest =~= line@.skip(i as int));
    let mut j: usize = i;
    while j < line.len() && is_space_char(line[j])
        invariant
            i <= j <= line.len(),
            rest == line@.skip(i as int),
            forall|k: int| 0 <= k < j - i ==> is_space(#[trigger] rest[k]),
        decreases line.len() - j,
    {
        j = j + 1;
    }
    proof {
        lemma_first_index(rest, |c: char| !is_space(c), j - i);
    }
    if i < line.len() && j < line.len() {
        let key = copy_range(line, a, i);
        let value = copy_range(line, j, line.len());
        assert(key_on.take(i - a) =~= line@.subrange(a as int, i as int));
        assert(rest.skip(j - i) =~= line@.subrange(j as int, line.len() as int));
        Some((string_of(&key), string_of(&value)))
    } else {
        None
    }
}

/// Removes line continuations, takes out metadata lines and strips comments.
///
/// Returns the metadata pairs in the order written (a later pair overrides an earlier one
/// with the same key) and the remaining lines joined by newlines; fails on a metadata line
/// without a value.
pub fn preprocess(s: String) -> (r: Result<(Vec<(String, String)>, String), ParseCommandErr>)
    ensures
        match preprocess_model(s@) {
            Ok(m) => r is Ok && pairs_view(r->Ok_0.0@) == m.0 && r->Ok_0.1@ == m.1,
            Err(e) => r == Err::<(Vec<(String, String)>, String), _>(e),
        },
{
    let cs = crate::text::chars_of(s.as_str());
    let st = strip_continuations_exec(&cs);
    let lines = split_at_char(&st, '\n');
    let ghost ls = lines_of(strip_continuations(s@));
    let mut meta: Vec<(String, String)> = Vec::new();
    let mut out: Vec<char> = Vec::new();
    let mut n: usize = 0;
    let ghost mut kept: Seq<Seq<char>> = seq![];
    let mut i: usize = 0;
    assert(ls.take(0) =~= Seq::<Seq<char>>::empty());
    assert(pairs_view(meta@) =~= Seq::<(Seq<char>, Seq<char>)>::empty());
    while i < lines.len()
        invariant
            i <= lines.len(),
            lines@.map_values(|l: Vec<char>| l@) == ls,
            ls == lines_of(strip_continuations(s@)),
            scan_lines(ls.take(i as int)) == Ok::<_, ParseCommandErr>((pairs_view(meta@), kept)),
            out@ == join_lines(kept),
            n == kept.len(),
            n <= i,
        decreases lines.len() - i,
    {
        let line = &lines[i];
        assert(line@ == ls[i as int]);
        assert(ls.take(i + 1).drop_last() =~= ls.take(i as int));
        assert(ls.take(i + 1).last() == line@);
        if line.len() > 0 && line[0] == '!' {
            match read_meta_line(line) {
                None => {
                    proof {
                        assert(scan_lines(ls.take(i + 1)) == Err::<(Seq<(Seq<char>, Seq<char>)>, Seq<Seq<char>>), _>(ParseCommandErr::MalformedMetadataLine));
                        lemma_scan_lines_err(ls, i + 1);
                    }
                    return Err(ParseCommandErr::MalformedMetadataLine);
                },
                Some(p) => {
                    proof {
                        lemma_pairs_view_push(meta@, p);
                    }
                    meta.push(p);
                },
            }
        } else {
            let mut j: usize = 0;
            while j < line.len() && !(line[j] == '#' && (j == 0 || line[j - 1] != '\\'))
                invariant
                    j <= line.len(),
                    comment_from(line@, 0) == comment_from(line@, j as int),
                decreases line.len() - j,
            {
                j = j + 1;
            }
            let k = copy_range(line, 0, j);
            assert(k@ =~= line@.take(j as int));
            push_line(&mut out, &k, n, Ghost(kept));
            proof {
                kept = kept.push(k@);
            }
            n = n + 1;
        }
        i = i + 1;
    }
    assert(ls.take(i as int) =~= ls);
    Ok((meta, string_of(&out)))
}

/// The metadata of a source text, without parsing its body.
pub fn get_metadata(s: String) -> (r: Result<Vec<(String, String)>, ParseCommandErr>)
    ensures
        match preprocess_model(s@) {
            Ok(m) => r is Ok && pairs_view(r->Ok_0@) == m.0,
            Err(e) => r == Err::<Vec<(String, String)>, _>(e),
        },
{
    match preprocess(s) {
        Ok((meta, _)) => Ok(meta),
        Err(e) => Err(e),
    }
}

/// No line of `t` starts with `!`; `p` tells whether `t` itself starts a line.
pub open spec fn no_bang_lines(t: Seq<char>, p: bool) -> bool
    decreases t.len(),
{
    t.len() == 0 || ((p ==> t[0] != '!') && no_bang_lines(t.drop_first(), t[0] == '\n'))
}

/// `l` holds no newline and does not start with `!`.
pub open spec fn plain_line(l: Seq<char>) -> bool {
    (l.len() == 0 || l[0] != '!') && !l.contains('\n')
}

proof fn lemma_no_bang_weaken(t: Seq<char>, p: bool)
    requires
        no_bang_lines(t, true),
    ensures
        no_bang_lines(t, p),
{
}

proof fn lemma_no_bang_strip(t: Seq<char>, p: bool)
    requires
        no_bang_lines(t, p),
    ensures
        no_bang_lines(strip_continuations(t), p),
    decreases t.len(),
{
    if t.len() >= 2 && t[0] == '\\' && t[1] == '\n' {
        assert(t.drop_first().drop_first() =~= t.skip(2));
        assert(no_bang_lines(t.drop_first(), false));
        lemma_no_bang_strip(t.skip(2), true);
        lemma_no_bang_weaken(strip_continuations(t.skip(2)), p);
    } else if t.len() > 0 {
        assert(t.drop_first() =~= t.skip(1));
        lemma_no_bang_strip(t.skip(1), t[0] == '\n');
        let x = seq![t[0]] + strip_continuations(t.skip(1));
        assert(x.drop_first() =~= strip_continuations(t.skip(1)));
    }
}

proof fn lemma_no_bang_append(x: Seq<char>, y: Seq<char>, p: bool)
    requires
        no_bang_lines(x, p),
        no_bang_lines(y, if x.len() == 0 { p } else { x.last() == '\n' }),
    ensures
        no_bang_lines(x + y, p),
    decreases x.len(),
{
    if x.len() > 0 {
        assert((x + y).drop_first() =~= x.drop_first() + y);
        if x.len() == 1 {
            assert(x.drop_first() =~= Seq::<char>::empty());
        } else {
            assert(x.drop_first().last() == x.last());
        }
        lemma_no_bang_append(x.drop_first(), y, x[0] == '\n');
    } else {
        assert(x + y =~= y);
    }
}

proof fn lemma_plain_line_no_bang(l: Seq<char>, p: bool)
    requires
        !l.contains('\n'),
        p ==> (l.len() == 0 || l[0] != '!'),
    ensures
        no_bang_lines(l, p),
    decreases l.len(),
{
    if l.len() > 0 {
        assert(!l.drop_first().contains('\n')) by {
            if l.drop_first().contains('\n') {
                let k = choose|k: int| 0 <= k < l.drop_first().len() && l.drop_first()[k] == '\n';
                assert(l[k + 1] == '\n');
            }
        }
        assert(l[0] != '\n') by {
            if l[0] == '\n' {
                assert(l.contains('\n'));
            }
        }
        lemma_plain_line_no_bang(l.drop_first(), false);
    }
}

proof fn lemma_join_no_bang(ls: Seq<Seq<char>>)
    requires
        forall|i: int| 0 <= i < ls.len() ==> plain_line(#[trigger] ls[i]),
    ensures
        no_bang_lines(join_lines(ls), true),
    decreases ls.len(),
{
    if ls.len() == 1 {
        assert(plain_line(ls[0]));
        lemma_plain_line_no_bang(ls[0], true);
    } else if ls.len() > 1 {
        let init = ls.drop_last();
        assert forall|i: int| 0 <= i < init.len() implies plain_line(#[trigger] init[i]) by {
            assert(init[i] == ls[i]);
        }
        lemma_join_no_bang(init);
        let l = ls.last();
        assert(plain_line(ls[ls.len() - 1]));
        lemma_plain_line_no_bang(l, true);
        let nl = seq!['\n'];
        assert(no_bang_lines(nl.drop_first(), true)) by {
            assert(nl.drop_first().len() == 0);
        }
        assert(no_bang_lines(nl, false));
        lemma_no_bang_weaken(nl, false);
        lemma_no_bang_append(join_lines(init), nl, true);
        let jn = join_lines(init) + nl;
        assert(jn.last() == '\n');
        lemma_no_bang_append(jn, l, true);
    }
}

proof fn lemma_split_plain(t: Seq<char>, cur: Seq<char>)
    requires
        !cur.contains('\n'),
    ensures
        forall|i: int| 0 <= i < split_from(t, '\n', cur).len() ==> !(#[trigger] split_from(t, '\n', cur)[i]).contains('\n'),
    decreases t.len(),
{
    if t.len() == 0 {
        assert(split_from(t, '\n', cur) == seq![cur]);
        assert(seq![cur][0] == cur);
    } else if t[0] == '\n' {
        lemma_split_plain(t.skip(1), seq![]);
        let r = split_from(t.skip(1), '\n', seq![]);
        assert(split_from(t, '\n', cur) == seq![cur] + r);
        assert forall|i: int| 0 <= i < (seq![cur] + r).len() implies !(#[trigger] (seq![cur] + r)[i]).contains('\n') by {
            if i > 0 {
                assert((seq![cur] + r)[i] == r[i - 1]);
            }
        }
    } else {
        assert(!cur.push(t[0]).contains('\n')) by {
            if cur.push(t[0]).contains('\n') {
                let k = choose|k: int| 0 <= k < cur.push(t[0]).len() && cur.push(t[0])[k] == '\n';
                if k < cur.len() {
                    assert(cur[k] == '\n');
                }
            }
        }
        lemma_split_plain(t.skip(1), cur.push(t[0]));
        assert(split_from(t, '\n', cur) == split_from(t.skip(1), '\n', cur.push(t[0])));
    }
}

proof fn lemma_split_no_bang(t: Seq<char>, cur: Seq<char>)
    requires
        no_bang_lines(t, cur.len() == 0),
        cur.len() == 0 || cur[0] != '!',
    ensures
        forall|i: int| 0 <= i < split_from(t, '\n', cur).len() ==> {
            let l = #[trigger] split_from(t, '\n', cur)[i];
            l.len() == 0 || l[0] != '!'
        },
    decreases t.len(),
{
    if t.len() == 0 {
        assert(split_from(t, '\n', cur) == seq![cur]);
        assert(seq![cur][0] == cur);
    } else if t[0] == '\n' {
        assert(t.drop_first() =~= t.skip(1));
        lemma_split_no_bang(t.skip(1), seq![]);
        let r = split_from(t.skip(1), '\n', seq![]);
        assert(split_from(t, '\n', cur) == seq![cur] + r);
        assert forall|i: int| 0 <= i < (seq![cur] + r).len() implies {
            let l = #[trigger] (seq![cur] + r)[i];
            l.len() == 0 || l[0] != '!'
        } by {
            if i > 0 {
                assert((seq![cur] + r)[i] == r[i - 1]);
            }
        }
    } else {
        assert(t.drop_first() =~= t.skip(1));
        assert(cur.push(t[0])[0] == if cur.len() == 0 { t[0] } else { cur[0] });
        lemma_split_no_bang(t.skip(1), cur.push(t[0]));
        assert(split_from(t, '\n', cur) == split_from(t.skip(1), '\n', cur.push(t[0])));
    }
}

proof fn lemma_comment_from_bounds(line: Seq<char>, j: int)
    requires
        0 <= j,
    ensures
        0 <= comment_from(line, j) <= line.len(),
    decreases line.len() - j,
{
    if j < line.len() && !comment_at(line, j) {
        lemma_comment_from_bounds(line, j + 1);
    }
}

proof fn lemma_scan_plain(ls: Seq<Seq<char>>)
    requires
        forall|i: int| 0 <= i < ls.len() ==> !(#[trigger] ls[i]).contains('\n'),
        scan_lines(ls) is Ok,
    ensures
        forall|i: int| 0 <= i < scan_lines(ls)->Ok_0.1.len() ==> plain_line(#[trigger] scan_lines(ls)->Ok_0.1[i]),
    decreases ls.len(),
{
    if ls.len() > 0 {
        let init = ls.drop_last();
        assert forall|i: int| 0 <= i < init.len() implies !(#[trigger] init[i]).contains('\n') by {
            assert(init[i] == ls[i]);
        }
        lemma_scan_plain(init);
        let acc = scan_lines(init)->Ok_0;
        let line = ls.last();
        assert(!ls[ls.len() - 1].contains('\n'));
        if !(line.len() > 0 && line[0] == '!') {
            let kept = line.take(comment_from(line, 0));
            lemma_comment_from_bounds(line, 0);
            assert(!kept.contains('\n')) by {
                if kept.contains('\n') {
                    let k = choose|k: int| 0 <= k < kept.len() && kept[k] == '\n';
                    assert(line[k] == '\n');
                }
            }
            if kept.len() > 0 {
                assert(kept[0] == line[0]);
            }
            let out = acc.1.push(kept);
            assert forall|i: int| 0 <= i < out.len() implies plain_line(#[trigger] out[i]) by {
                if i < acc.1.len() {
                    assert(out[i] == acc.1[i]);
                }
            }
        }
    }
}

proof fn lemma_scan_no_bang(ls: Seq<Seq<char>>)
    requires
        forall|i: int| 0 <= i < ls.len() ==> {
            let l = #[trigger] ls[i];
            l.len() == 0 || l[0] != '!'
        },
    ensures
        scan_lines(ls) is Ok,
        scan_lines(ls)->Ok_0.0.len() == 0,
    decreases ls.len(),
{
    if ls.len() > 0 {
        let init = ls.drop_last();
        assert forall|i: int| 0 <= i < init.len() implies {
            let l = #[trigger] init[i];
            l.len() == 0 || l[0] != '!'
        } by {
            assert(init[i] == ls[i]);
        }
        lemma_scan_no_bang(init);
        let l = ls[ls.len() - 1];
        assert(l.len() == 0 || l[0] != '!');
    }
}

/// Preprocessing takes every metadata line out: preprocessing the body it leaves succeeds and
/// finds no metadata.
pub proof fn lemma_stripped_body_has_no_metadata(s: Seq<char>)
    requires
        preprocess_model(s) is Ok,
    ensures
        preprocess_model(preprocess_model(s)->Ok_0.1) is Ok,
        preprocess_model(preprocess_model(s)->Ok_0.1)->Ok_0.0.len() == 0,
{
    let ls = lines_of(strip_continuations(s));
    lemma_split_plain(strip_continuations(s), seq![]);
    lemma_scan_plain(ls);
    let kept = scan_lines(ls)->Ok_0.1;
    lemma_join_no_bang(kept);
    let body = join_lines(kept);
    lemma_no_bang_strip(body, true);
    lemma_split_no_bang(strip_continuations(body), seq![]);
    lemma_scan_no_bang(lines_of(strip_continuations(body)));
}

} // verus!
