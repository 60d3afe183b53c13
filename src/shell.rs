//! Shell-style word splitting and file-name patterns for template macros.
use vstd::prelude::*;
use crate::scan::{Tok, escape_scan, auto_escape};
use crate::text::{string_of, chars_of};

verus! {

broadcast use vstd::std_specs::vec::group_vec_axioms, vstd::seq::group_seq_axioms;

/// The word `cur`, unless it is empty.
pub open spec fn emit(cur: Seq<char>) -> Seq<Seq<char>> {
    if cur.len() > 0 {
        seq![cur]
    } else {
        seq![]
    }
}

/// The words of a token stream: unescaped spaces outside double quotes separate words,
/// unescaped double quotes open and close a quoted part, escapes are resolved, and empty
/// words are dropped. `quoted` tells whether a quote is open, `cur` is the word read so far.
pub open spec fn words(ts: Seq<Tok>, quoted: bool, cur: Seq<char>) -> Seq<Seq<char>>
    decreases ts.len(),
{
    if ts.len() == 0 {
        emit(cur)
    } else if ts[0] == (false, '"') {
        words(ts.drop_first(), !quoted, cur)
    } else if ts[0] == (false, ' ') && !quoted {
        emit(cur) + words(ts.drop_first(), quoted, seq![])
    } else {
        words(ts.drop_first(), quoted, cur.push(ts[0].1))
    }
}

proof fn lemma_strings_push(v: Seq<String>, s: String)
    ensures
        v.push(s).map_values(|x: String| x@) == v.map_values(|x: String| x@).push(s@),
{
    assert(v.push(s).map_values(|x: String| x@) =~= v.map_values(|x: String| x@).push(s@));
}

/// Splits a command line into words, shell style.
pub fn split_whitespace(s: &str) -> (r: Vec<String>)
    ensures
        r@.map_values(|x: String| x@) == words(escape_scan(s@), false, seq![]),
{
    let cs = chars_of(s);
    let ts = auto_escape(&cs);
    let mut r: Vec<String> = Vec::new();
    let mut cur: Vec<char> = Vec::new();
    let mut quoted = false;
    let mut i: usize = 0;
    assert(ts@.skip(0) =~= ts@);
    assert(r@.map_values(|x: String| x@) =~= Seq::<Seq<char>>::empty());
    while i < ts.len()
        invariant
            i <= ts.len(),
            ts@ == escape_scan(s@),
            words(ts@, false, seq![]) == r@.map_values(|x: String| x@) + words(ts@.skip(i as int), quoted, cur@),
        decreases ts.len() - i,
    {
        let ghost rest = ts@.skip(i as int);
        let ghost r0 = r@.map_values(|x: String| x@);
        assert(rest.drop_first() =~= ts@.skip(i + 1));
        assert(rest[0] == ts@[i as int]);
        let t = ts[i];
        if t.0 == false && t.1 == '"' {
            quoted = !quoted;
        } else if t.0 == false && t.1 == ' ' && !quoted {
            if cur.len() > 0 {
                let w = string_of(&cur);
                proof {
                    lemma_strings_push(r@, w);
                }
                r.push(w);
                assert(r0 + (emit(cur@) + words(ts@.skip(i + 1), quoted, seq![])) =~= r@.map_values(|x: String| x@) + words(ts@.skip(i + 1), quoted, seq![]));
            } else {
                assert(r0 + (emit(cur@) + words(ts@.skip(i + 1), quoted, seq![])) =~= r@.map_values(|x: String| x@) + words(ts@.skip(i + 1), quoted, seq![]));
            }
            cur = Vec::new();
            assert(cur@ =~= Seq::<char>::empty());
        } else {
            cur.push(t.1);
        }
        i = i + 1;
    }
    let ghost r0 = r@.map_values(|x: String| x@);
    assert(ts@.skip(i as int) =~= Seq::<Tok>::empty());
    if cur.len() > 0 {
        let w = string_of(&cur);
        proof {
            lemma_strings_push(r@, w);
        }
        r.push(w);
        assert(r@.map_values(|x: String| x@) =~= r0 + emit(cur@));
    } else {
        assert(r@.map_values(|x: String| x@) =~= r0 + emit(cur@));
    }
    r
}

/// Splits a command line into the command and its arguments; fails when it holds no word.
pub fn parse_cmd_and_args(s: &str) -> (r: Result<(String, Vec<String>), String>)
    ensures
        r is Ok <==> words(escape_scan(s@), false, seq![]).len() > 0,
        r is Ok ==> seq![r->Ok_0.0@] + r->Ok_0.1@.map_values(|x: String| x@) == words(
            escape_scan(s@),
            false,
            seq![],
        ),
{
    let mut v = split_whitespace(s);
    if v.len() == 0 {
        return Err(string_of(&vec!['e', 'm', 'p', 't', 'y', ' ', 'c', 'o', 'm', 'm', 'a', 'n', 'd']));
    }
    let ghost all = v@;
    let first = v.remove(0);
    assert(v@ =~= all.drop_first());
    assert(seq![first@] + v@.map_values(|x: String| x@) =~= all.map_values(|x: String| x@));
    Ok((first, v))
}

/// `s` matches the pattern `p`, in which `*` stands for any run of characters and every
/// other character for itself.
pub open spec fn glob(s: Seq<char>, p: Seq<char>) -> bool
    decreases p.len(), s.len(),
{
    if p.len() == 0 {
        s.len() == 0
    } else if p[0] == '*' {
        glob(s, p.drop_first()) || (s.len() > 0 && glob(s.drop_first(), p))
    } else {
        s.len() > 0 && s[0] == p[0] && glob(s.drop_first(), p.drop_first())
    }
}

fn glob_from(s: &Vec<char>, i: usize, p: &Vec<char>, j: usize) -> (r: bool)
    requires
        i <= s.len(),
        j <= p.len(),
    ensures
        r == glob(s@.skip(i as int), p@.skip(j as int)),
    decreases p.len() - j, s.len() - i,
{
    let ghost ss = s@.skip(i as int);
    let ghost pp = p@.skip(j as int);
    if j == p.len() {
        return i == s.len();
    }
    assert(pp[0] == p@[j as int]);
    assert(pp.drop_first() =~= p@.skip(j + 1));
    if p[j] == '*' {
        if glob_from(s, i, p, j + 1) {
            return true;
        }
        if i < s.len() {
            assert(ss.drop_first() =~= s@.skip(i + 1));
            return glob_from(s, i + 1, p, j);
        }
        return false;
    }
    if i < s.len() && s[i] == p[j] {
        assert(ss[0] == s@[i as int]);
        assert(ss.drop_first() =~= s@.skip(i + 1));
        return glob_from(s, i + 1, p, j + 1);
    }
    false
}

/// Whether the file name `s` matches the pattern `pat` (`*` matches any run of characters).
pub fn matches_pattern(s: &str, pat: &str) -> (r: bool)
    ensures
        r == glob(s@, pat@),
{
    let sc = chars_of(s);
    let pc = chars_of(pat);
    assert(sc@.skip(0) =~= sc@);
    assert(pc@.skip(0) =~= pc@);
    glob_from(&sc, 0, &pc, 0)
}

/// The words of a token stream separated by unescaped spaces, escapes resolved, empty words
/// dropped; `cur` is the word read so far.
pub open spec fn space_words(ts: Seq<Tok>, cur: Seq<char>) -> Seq<Seq<char>>
    decreases ts.len(),
{
    if ts.len() == 0 {
        emit(cur)
    } else if ts[0] == (false, ' ') {
        emit(cur) + space_words(ts.drop_first(), seq![])
    } else {
        space_words(ts.drop_first(), cur.push(ts[0].1))
    }
}

/// Splits `s` at unescaped spaces, resolving escapes and dropping empty words.
pub fn split_spaces(s: &str) -> (r: Vec<String>)
    ensures
        r@.map_values(|x: String| x@) == space_words(escape_scan(s@), seq![]),
{
    let cs = chars_of(s);
    let ts = auto_escape(&cs);
    let mut r: Vec<String> = Vec::new();
    let mut cur: Vec<char> = Vec::new();
    let mut i: usize = 0;
    assert(ts@.skip(0) =~= ts@);
    assert(r@.map_values(|x: String| x@) =~= Seq::<Seq<char>>::empty());
    while i < ts.len()
        invariant
            i <= ts.len(),
            ts@ == escape_scan(s@),
            space_words(ts@, seq![]) == r@.map_values(|x: String| x@) + space_words(ts@.skip(i as int), cur@),
        decreases ts.len() - i,
    {
        let ghost rest = ts@.skip(i as int);
        let ghost r0 = r@.map_values(|x: String| x@);
        assert(rest.drop_first() =~= ts@.skip(i + 1));
        assert(rest[0] == ts@[i as int]);
        let t = ts[i];
        if t.0 == false && t.1 == ' ' {
            if cur.len() > 0 {
                let w = string_of(&cur);
                proof {
                    lemma_strings_push(r@, w);
                }
                r.push(w);
            }
            assert(r0 + (emit(cur@) + space_words(ts@.skip(i + 1), seq![])) =~= r@.map_values(|x: String| x@)
                + space_words(ts@.skip(i + 1), seq![]));
            cur = Vec::new();
            assert(cur@ =~= Seq::<char>::empty());
        } else {
            cur.push(t.1);
        }
        i = i + 1;
    }
    let ghost r0 = r@.map_values(|x: String| x@);
    assert(ts@.skip(i as int) =~= Seq::<Tok>::empty());
    if cur.len() > 0 {
        let w = string_of(&cur);
        proof {
            lemma_strings_push(r@, w);
        }
        r.push(w);
    }
    assert(r@.map_values(|x: String| x@) =~= r0 + emit(cur@));
    r
}

} // verus!
