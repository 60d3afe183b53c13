//! Parsing the inside of one bracket pair into a command: head, backend, attributes, arguments.
use vstd::prelude::*;
use crate::scan::{Tok, tok_chars};
use crate::container::{Containerized, Elem, flat_seq, open_tok, close_tok, join_all};
use crate::parser::ParseCommandErr;
use crate::ast::{opt_view, pairs_view};
use crate::text::string_of;

verus! {

broadcast use vstd::std_specs::vec::group_vec_axioms, vstd::seq::group_seq_axioms;

/// One unit of a command body after its free runs are cut into single tokens: a token, or the
/// contents of a nested bracket pair.
pub enum Item {
    T(Tok),
    G(Vec<Elem>),
}

/// Unicode whitespace (the `White_Space` property): tab to carriage return, space, next line,
/// no-break space, ogham space mark, the spaces from en quad to hair space, line and paragraph
/// separators, narrow no-break space, medium mathematical space and ideographic space.
pub open spec fn is_space(c: char) -> bool {
    ('\t' <= c && c <= '\r') || c == ' ' || c == '\u{85}' || c == '\u{a0}' || c == '\u{1680}'
        || ('\u{2000}' <= c && c <= '\u{200a}') || c == '\u{2028}' || c == '\u{2029}' || c == '\u{202f}'
        || c == '\u{205f}' || c == '\u{3000}'
}

/// `t` is the character `c`, not escaped.
pub open spec fn is_plain(t: Tok, c: char) -> bool {
    t == (false, c)
}

/// `t` is unescaped whitespace.
pub open spec fn is_blank(t: Tok) -> bool {
    !t.0 && is_space(t.1)
}

/// Where a command head ends: at an unescaped `{` or unescaped whitespace.
pub open spec fn head_stop(t: Tok) -> bool {
    is_plain(t, '{') || is_blank(t)
}

/// The index of the first item satisfying `p`, or the length when there is none.
pub open spec fn first_index<A>(s: Seq<A>, p: spec_fn(A) -> bool) -> int
    decreases s.len(),
{
    if s.len() == 0 {
        0
    } else if p(s[0]) {
        0
    } else {
        1 + first_index(s.drop_first(), p)
    }
}

/// The index of the last item satisfying `p`, or -1 when there is none.
pub open spec fn last_index<A>(s: Seq<A>, p: spec_fn(A) -> bool) -> int
    decreases s.len(),
{
    if s.len() == 0 {
        -1
    } else if p(s.last()) {
        s.len() - 1
    } else {
        last_index(s.drop_last(), p)
    }
}

pub proof fn lemma_first_index<A>(s: Seq<A>, p: spec_fn(A) -> bool, k: int)
    requires
        0 <= k <= s.len(),
        forall|j: int| 0 <= j < k ==> !p(#[trigger] s[j]),
        k < s.len() ==> p(s[k]),
    ensures
        first_index(s, p) == k,
    decreases s.len(),
{
    if s.len() > 0 && k > 0 {
        assert(!p(s[0]));
        assert forall|j: int| 0 <= j < k - 1 implies !p(#[trigger] s.drop_first()[j]) by {
            assert(s.drop_first()[j] == s[j + 1]);
        }
        lemma_first_index(s.drop_first(), p, k - 1);
    }
}

pub proof fn lemma_last_index<A>(s: Seq<A>, p: spec_fn(A) -> bool, k: int)
    requires
        -1 <= k < s.len(),
        forall|j: int| k < j < s.len() ==> !p(#[trigger] s[j]),
        k >= 0 ==> p(s[k]),
    ensures
        last_index(s, p) == k,
    decreases s.len(),
{
    if s.len() > 0 && k < s.len() - 1 {
        assert(!p(s[s.len() - 1]));
        lemma_last_index(s.drop_last(), p, k);
    }
}

/// `s` without unescaped whitespace at either end.
pub open spec fn trim_toks(s: Seq<Tok>) -> Seq<Tok> {
    let t = s.skip(first_index(s, |t: Tok| !is_blank(t)));
    t.take(last_index(t, |t: Tok| !is_blank(t)) + 1)
}

/// A command head split at its last unescaped `@` into backend and name.
pub open spec fn split_backend(head: Seq<Tok>) -> (Option<Seq<char>>, Seq<char>) {
    let a = last_index(head, |t: Tok| is_plain(t, '@'));
    if a < 0 {
        (None, tok_chars(head))
    } else {
        (Some(tok_chars(head.take(a))), tok_chars(head.skip(a + 1)))
    }
}

pub open spec fn toks_items(ts: Seq<Tok>) -> Seq<Item> {
    ts.map_values(|t: Tok| Item::T(t))
}

/// The items of an element sequence: each free token on its own, each bracketed run whole.
pub open spec fn items_of(elems: Seq<Elem>) -> Seq<Item>
    decreases elems.len(),
{
    if elems.len() == 0 {
        seq![]
    } else {
        match elems[0] {
            Containerized::Free(v) => toks_items(v@) + items_of(elems.drop_first()),
            Containerized::Contained(w) => seq![Item::G(w)] + items_of(elems.drop_first()),
        }
    }
}

/// The text of an attribute block and the items after its closing brace, for an item stream
/// that follows the opening brace; `d` is the brace depth (1 right after the opening brace).
/// Nested bracket runs are written back with their brackets. An unclosed block takes all.
pub open spec fn attr_split(src: Seq<Item>, d: int) -> (Seq<Tok>, Seq<Item>)
    decreases src.len(),
{
    if src.len() == 0 {
        (seq![], seq![])
    } else {
        match src[0] {
            Item::T(t) => {
                if is_plain(t, '}') && d == 1 {
                    (seq![], src.drop_first())
                } else {
                    let nd = if is_plain(t, '{') {
                        d + 1
                    } else if is_plain(t, '}') {
                        d - 1
                    } else {
                        d
                    };
                    let r = attr_split(src.drop_first(), nd);
                    (seq![t] + r.0, r.1)
                }
            },
            Item::G(w) => {
                let r = attr_split(src.drop_first(), d);
                (seq![open_tok()] + flat_seq(w@, open_tok(), close_tok()) + seq![close_tok()] + r.0, r.1)
            },
        }
    }
}

/// The pair written in one attribute entry, if it holds an unescaped `=`: key and value
/// trimmed, escapes dropped.
pub open spec fn attr_entry(e: Seq<Tok>) -> Seq<(Seq<char>, Seq<char>)> {
    let i = first_index(e, |t: Tok| is_plain(t, '='));
    if i < e.len() {
        seq![(tok_chars(trim_toks(e.take(i))), tok_chars(trim_toks(e.skip(i + 1))))]
    } else {
        seq![]
    }
}

/// The attributes of a block's text, whose entries are separated by unescaped `;`;
/// `cur` is the entry read so far.
pub open spec fn attrs_model(ts: Seq<Tok>, cur: Seq<Tok>) -> Seq<(Seq<char>, Seq<char>)>
    decreases ts.len(),
{
    if ts.len() == 0 {
        attr_entry(cur)
    } else if is_plain(ts[0], ';') {
        attr_entry(cur) + attrs_model(ts.drop_first(), seq![])
    } else {
        attrs_model(ts.drop_first(), cur.push(ts[0]))
    }
}

/// A command whose head and attributes are read, and whose argument items are not yet parsed.
pub struct PendingCommand {
    pub backend: Option<String>,
    pub cmd: String,
    pub attributes: Vec<(String, String)>,
    pub arguments: Vec<Item>,
}

/// The mathematical value of a pending command.
pub struct PendingModel {
    pub backend: Option<Seq<char>>,
    pub name: Seq<char>,
    pub attributes: Seq<(Seq<char>, Seq<char>)>,
    pub args: Seq<Item>,
}

impl PendingCommand {
    pub open spec fn model(&self) -> PendingModel {
        PendingModel {
            backend: opt_view(self.backend),
            name: self.cmd@,
            attributes: pairs_view(self.attributes@),
            args: self.arguments@,
        }
    }
}

/// What the inside of a bracket pair reads as, before its arguments are parsed.
///
/// An empty body is `EmptyBody`. The first element must be free text holding a non-empty
/// command name, else it is `CommandIsNotIdentifier`; its head runs up to the first unescaped `{` or
/// whitespace, and is split at its last unescaped `@` into backend and name. A `{` right
/// after the head opens an attribute block; otherwise one whitespace character after the
/// head is dropped and the rest of the text starts the arguments.
pub open spec fn pending_model(w: Seq<Elem>) -> Result<PendingModel, ParseCommandErr> {
    if w.len() == 0 {
        Err(ParseCommandErr::EmptyBody)
    } else {
        match w[0] {
            Containerized::Contained(_) => Err(ParseCommandErr::CommandIsNotIdentifier),
            Containerized::Free(h) => {
                let hs = h@;
                let k = first_index(hs, |t: Tok| head_stop(t));
                let bn = split_backend(hs.take(k));
                let rest = items_of(w.drop_first());
                if bn.1.len() == 0 {
                    Err(ParseCommandErr::CommandIsNotIdentifier)
                } else if k < hs.len() && is_plain(hs[k], '{') {
                    let r = attr_split(toks_items(hs.skip(k + 1)) + rest, 1);
                    Ok(
                        PendingModel {
                            backend: bn.0,
                            name: bn.1,
                            attributes: attrs_model(r.0, seq![]),
                            args: r.1,
                        },
                    )
                } else if k < hs.len() {
                    Ok(
                        PendingModel {
                            backend: bn.0,
                            name: bn.1,
                            attributes: seq![],
                            args: toks_items(hs.skip(k + 1)) + rest,
                        },
                    )
                } else {
                    Ok(PendingModel { backend: bn.0, name: bn.1, attributes: seq![], args: rest })
                }
            },
        }
    }
}

pub fn is_space_char(c: char) -> (r: bool)
    ensures
        r == is_space(c),
{
    ('\t' <= c && c <= '\r') || c == ' ' || c == '\u{85}' || c == '\u{a0}' || c == '\u{1680}'
        || ('\u{2000}' <= c && c <= '\u{200a}') || c == '\u{2028}' || c == '\u{2029}' || c == '\u{202f}'
        || c == '\u{205f}' || c == '\u{3000}'
}

fn is_blank_tok(t: Tok) -> (r: bool)
    ensures
        r == is_blank(t),
{
    !t.0 && is_space_char(t.1)
}

/// The plain characters of `ts[from..to]`.
fn chars_between(ts: &Vec<Tok>, from: usize, to: usize) -> (r: Vec<char>)
    requires
        from <= to <= ts.len(),
    ensures
        r@ == tok_chars(ts@.subrange(from as int, to as int)),
{
    let mut r: Vec<char> = Vec::new();
    let mut i: usize = from;
    while i < to
        invariant
            from <= i <= to <= ts.len(),
            r@ == tok_chars(ts@.subrange(from as int, i as int)),
        decreases to - i,
    {
        r.push(ts[i].1);
        i = i + 1;
        assert(r@ =~= tok_chars(ts@.subrange(from as int, i as int)));
    }
    r
}

/// The plain characters of `ts[from..to]` without unescaped whitespace at either end.
fn trimmed_chars(ts: &Vec<Tok>, from: usize, to: usize) -> (r: Vec<char>)
    requires
        from <= to <= ts.len(),
    ensures
        r@ == tok_chars(trim_toks(ts@.subrange(from as int, to as int))),
{
    let ghost s = ts@.subrange(from as int, to as int);
    let mut a: usize = from;
    while a < to && is_blank_tok(ts[a])
        invariant
            from <= a <= to <= ts.len(),
            s == ts@.subrange(from as int, to as int),
            forall|j: int| 0 <= j < a - from ==> is_blank(#[trigger] s[j]),
        decreases to - a,
    {
        a = a + 1;
    }
    proof {
        lemma_first_index(s, |t: Tok| !is_blank(t), a - from);
    }
    let ghost t = s.skip(a - from);
    assert(t =~= ts@.subrange(a as int, to as int));
    let mut b: usize = to;
    while b > a && is_blank_tok(ts[b - 1])
        invariant
            from <= a <= b <= to <= ts.len(),
            t == ts@.subrange(a as int, to as int),
            forall|j: int| b - a <= j < t.len() ==> is_blank(#[trigger] t[j]),
        decreases b - a,
    {
        b = b - 1;
    }
    proof {
        lemma_last_index(t, |t: Tok| !is_blank(t), b - a - 1);
        assert(t.take(b - a) =~= ts@.subrange(a as int, b as int));
    }
    chars_between(ts, a, b)
}

/// The items of `elems`, consumed.
fn items_from(elems: Vec<Elem>, out: &mut Vec<Item>)
    ensures
        final(out)@ == old(out)@ + items_of(elems@),
{
    let mut elems = elems;
    let ghost all = elems@;
    assert(old(out)@ + items_of(elems@) =~= old(out)@ + items_of(all));
    while elems.len() > 0
        invariant
            out@ + items_of(elems@) == old(out)@ + items_of(all),
        decreases elems.len(),
    {
        let ghost before = elems@;
        let e = elems.remove(0);
        assert(elems@ =~= before.drop_first());
        match e {
            Containerized::Free(v) => {
                let ghost o = out@;
                let mut i: usize = 0;
                while i < v.len()
                    invariant
                        i <= v.len(),
                        out@ == o + toks_items(v@.take(i as int)),
                    decreases v.len() - i,
                {
                    out.push(Item::T(v[i]));
                    i = i + 1;
                    assert(out@ =~= o + toks_items(v@.take(i as int)));
                }
                assert(v@.take(i as int) =~= v@);
                assert(out@ + items_of(elems@) =~= o + items_of(before));
            },
            Containerized::Contained(w) => {
                let ghost o = out@;
                out.push(Item::G(w));
                assert(out@ + items_of(elems@) =~= o + items_of(before));
            },
        }
    }
}

/// The attribute block text up to its closing brace, and the items after it.
fn split_attr_block(items: Vec<Item>) -> (r: (Vec<Tok>, Vec<Item>))
    ensures
        r.0@ == attr_split(items@, 1).0,
        r.1@ == attr_split(items@, 1).1,
{
    let ghost n = items.len();
    let mut src = items;
    let ghost all = src@;
    assert(all.len() == n);
    let mut acc: Vec<Tok> = Vec::new();
    let mut extra: usize = 0;
    assert(acc@ + attr_split(src@, 1).0 =~= attr_split(all, 1).0);
    while src.len() > 0
        invariant
            all == items@,
            all.len() <= usize::MAX,
            attr_split(all, 1).0 == acc@ + attr_split(src@, extra + 1).0,
            attr_split(all, 1).1 == attr_split(src@, extra + 1).1,
            extra + src.len() <= all.len(),
        decreases src.len(),
    {
        let ghost before = src@;
        let ghost d = extra + 1;
        let it = src.remove(0);
        assert(src@ =~= before.drop_first());
        match it {
            Item::T(t) => {
                if t.0 == false && t.1 == '}' && extra == 0 {
                    assert(attr_split(before, d).1 == src@);
                    assert(attr_split(before, d).0 =~= Seq::<Tok>::empty());
                    assert(acc@ + Seq::<Tok>::empty() =~= acc@);
                    return (acc, src);
                }
                if t.0 == false && t.1 == '{' {
                    extra = extra + 1;
                } else if t.0 == false && t.1 == '}' {
                    extra = extra - 1;
                }
                let ghost a0 = acc@;
                acc.push(t);
                assert(acc@ + attr_split(src@, extra + 1).0 =~= a0 + attr_split(before, d).0);
            },
            Item::G(w) => {
                let ghost a0 = acc@;
                acc.push((false, '['));
                let inner = join_all(&w, (false, '['), (false, ']'));
                let mut i: usize = 0;
                let ghost a1 = acc@;
                while i < inner.len()
                    invariant
                        i <= inner.len(),
                        acc@ == a1 + inner@.take(i as int),
                    decreases inner.len() - i,
                {
                    acc.push(inner[i]);
                    i = i + 1;
                    assert(acc@ =~= a1 + inner@.take(i as int));
                }
                assert(inner@.take(i as int) =~= inner@);
                acc.push((false, ']'));
                assert(acc@ + attr_split(src@, extra + 1).0 =~= a0 + attr_split(before, d).0);
            },
        }
    }
    (acc, src)
}

pub proof fn lemma_pairs_view_push(v: Seq<(String, String)>, p: (String, String))
    ensures
        pairs_view(v.push(p)) == pairs_view(v).push((p.0@, p.1@)),
{
    assert(pairs_view(v.push(p)) =~= pairs_view(v).push((p.0@, p.1@)));
}

/// Appends the pair that the entry `ts[from..to]` holds, if any.
fn push_attr_entry(ts: &Vec<Tok>, from: usize, to: usize, out: &mut Vec<(String, String)>)
    requires
        from <= to <= ts.len(),
    ensures
        pairs_view(final(out)@) == pairs_view(old(out)@) + attr_entry(ts@.subrange(from as int, to as int)),
{
    let ghost e = ts@.subrange(from as int, to as int);
    let mut i: usize = from;
    while i < to && !(ts[i].0 == false && ts[i].1 == '=')
        invariant
            from <= i <= to <= ts.len(),
            e == ts@.subrange(from as int, to as int),
            forall|j: int| 0 <= j < i - from ==> !is_plain(#[trigger] e[j], '='),
        decreases to - i,
    {
        i = i + 1;
    }
    proof {
        lemma_first_index(e, |t: Tok| is_plain(t, '='), i - from);
    }
    if i < to {
        let key = trimmed_chars(ts, from, i);
        let value = trimmed_chars(ts, i + 1, to);
        assert(e.take(i - from) =~= ts@.subrange(from as int, i as int));
        assert(e.skip(i - from + 1) =~= ts@.subrange(i + 1, to as int));
        let p = (string_of(&key), string_of(&value));
        proof {
            lemma_pairs_view_push(out@, p);
        }
        out.push(p);
        assert(pairs_view(out@) =~= pairs_view(old(out)@) + attr_entry(e));
    } else {
        assert(pairs_view(out@) =~= pairs_view(old(out)@) + attr_entry(e));
    }
}

/// The attributes written in an attribute block's text: entries separated by unescaped `;`,
/// each `key=value` with both sides trimmed; an entry without `=` is dropped.
pub fn parse_attrs(ts: &Vec<Tok>) -> (r: Vec<(String, String)>)
    ensures
        pairs_view(r@) == attrs_model(ts@, seq![]),
{
    let mut out: Vec<(String, String)> = Vec::new();
    let mut start: usize = 0;
    let mut i: usize = 0;
    assert(ts@.skip(0) =~= ts@);
    assert(ts@.subrange(0, 0) =~= Seq::<Tok>::empty());
    assert(pairs_view(out@) =~= Seq::<(Seq<char>, Seq<char>)>::empty());
    while i < ts.len()
        invariant
            start <= i <= ts.len(),
            attrs_model(ts@, seq![]) == pairs_view(out@) + attrs_model(
                ts@.skip(i as int),
                ts@.subrange(start as int, i as int),
            ),
        decreases ts.len() - i,
    {
        let ghost rest = ts@.skip(i as int);
        let ghost cur = ts@.subrange(start as int, i as int);
        assert(rest.drop_first() =~= ts@.skip(i + 1));
        if ts[i].0 == false && ts[i].1 == ';' {
            let ghost o = pairs_view(out@);
            push_attr_entry(ts, start, i, &mut out);
            i = i + 1;
            start = i;
            assert(ts@.subrange(start as int, i as int) =~= Seq::<Tok>::empty());
            assert(pairs_view(out@) + attrs_model(ts@.skip(i as int), seq![]) =~= o + attrs_model(rest, cur));
        } else {
            assert(cur.push(ts@[i as int]) =~= ts@.subrange(start as int, i + 1));
            i = i + 1;
        }
    }
    let ghost o = pairs_view(out@);
    push_attr_entry(ts, start, i, &mut out);
    assert(ts@.skip(i as int) =~= Seq::<Tok>::empty());
    assert(pairs_view(out@) =~= o + attrs_model(ts@.skip(i as int), ts@.subrange(start as int, i as int)));
    out
}

/// Reads the head, backend and attributes of the contents of one bracket pair, and leaves
/// the argument items for the caller to parse.
pub fn parse_command(v: Vec<Elem>) -> (r: Result<PendingCommand, ParseCommandErr>)
    ensures
        match pending_model(v@) {
            Ok(p) => r is Ok && r->Ok_0.model() == p,
            Err(e) => r == Err::<PendingCommand, _>(e),
        },
{
    let mut w = v;
    if w.len() == 0 {
        return Err(ParseCommandErr::EmptyBody);
    }
    let ghost all = w@;
    let first = w.remove(0);
    assert(w@ =~= all.drop_first());
    let h = match first {
        Containerized::Contained(_) => {
            return Err(ParseCommandErr::CommandIsNotIdentifier);
        },
        Containerized::Free(h) => h,
    };
    let mut k: usize = 0;
    while k < h.len() && !((h[k].0 == false && h[k].1 == '{') || is_blank_tok(h[k]))
        invariant
            k <= h.len(),
            forall|j: int| 0 <= j < k ==> !head_stop(#[trigger] h@[j]),
        decreases h.len() - k,
    {
        k = k + 1;
    }
    proof {
        lemma_first_index(h@, |t: Tok| head_stop(t), k as int);
    }
    let ghost head = h@.take(k as int);
    let mut a: usize = k;
    while a > 0 && !(h[a - 1].0 == false && h[a - 1].1 == '@')
        invariant
            a <= k <= h.len(),
            head == h@.take(k as int),
            forall|j: int| a <= j < k ==> !is_plain(#[trigger] head[j], '@'),
        decreases a,
    {
        a = a - 1;
    }
    proof {
        lemma_last_index(head, |t: Tok| is_plain(t, '@'), a - 1);
    }
    let backend: Option<String>;
    let name: Vec<char>;
    if a == 0 {
        backend = None;
        name = chars_between(&h, 0, k);
        assert(head =~= h@.subrange(0, k as int));
    } else {
        let b = chars_between(&h, 0, a - 1);
        backend = Some(string_of(&b));
        name = chars_between(&h, a, k);
        assert(head.take(a - 1) =~= h@.subrange(0, a - 1));
        assert(head.skip(a as int) =~= h@.subrange(a as int, k as int));
    }
    if name.len() == 0 {
        return Err(ParseCommandErr::CommandIsNotIdentifier);
    }
    let cmd = string_of(&name);
    let mut items: Vec<Item> = Vec::new();
    if k < h.len() {
        let mut j: usize = k + 1;
        while j < h.len()
            invariant
                k < j <= h.len(),
                items@ == toks_items(h@.subrange(k + 1, j as int)),
            decreases h.len() - j,
        {
            items.push(Item::T(h[j]));
            j = j + 1;
            assert(items@ =~= toks_items(h@.subrange(k + 1, j as int)));
        }
        assert(h@.subrange(k + 1, j as int) =~= h@.skip(k + 1));
    } else {
        assert(items@ =~= Seq::<Item>::empty());
    }
    let ghost pre = items@;
    items_from(w, &mut items);
    if k < h.len() && h[k].0 == false && h[k].1 == '{' {
        let (at, args) = split_attr_block(items);
        let attributes = parse_attrs(&at);
        Ok(PendingCommand { backend, cmd, attributes, arguments: args })
    } else {
        let attributes: Vec<(String, String)> = Vec::new();
        assert(pairs_view(attributes@) =~= Seq::<(Seq<char>, Seq<char>)>::empty());
        proof {
            if k >= h.len() {
                assert(items@ =~= items_of(all.drop_first()));
            }
        }
        Ok(PendingCommand { backend, cmd, attributes, arguments: items })
    }
}

} // verus!
