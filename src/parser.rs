//! The document parser: preprocessing, desugaring, containerizing and command parsing.
use vstd::prelude::*;
use crate::scan::{Tok, unscan, unescape_text, escape_scan, auto_escape};
use crate::container::{Containerized, Elem, shaped, all_shaped, runs_ok, flat_seq, open_tok, close_tok, containerize, has_unmatched_close, depth};
use crate::command::{Item, pending_model, parse_command, is_plain, is_blank, is_space_char, items_of, toks_items, attr_split};
use crate::ast::{AST, ASTNode, Command, pairs_view, NodeModel, CommandModel, nodes_model, node_model, command_model, lemma_nodes_model_push};
use crate::text::{string_of, chars_of};
use crate::preprocess::{preprocess, preprocess_model, desugar_slfcalls, desugar_model};

verus! {

broadcast use vstd::std_specs::vec::group_vec_axioms, vstd::seq::group_seq_axioms;

/// Why a document could not be parsed.
#[derive(Debug, Clone, Copy, PartialEq, Eq, Structural)]
pub enum ParseCommandErr {
    EmptyBody,
    CommandIsNotIdentifier,
    UnmatchedOpenDelimiter,
    UnmatchedCloseDelimiter,
    MalformedMetadataLine,
}

/// The text node for a run of tokens, if the run is not empty.
pub open spec fn flush(cur: Seq<Tok>) -> Seq<NodeModel> {
    if cur.len() == 0 {
        seq![]
    } else {
        seq![NodeModel::Text(unscan(cur))]
    }
}

/// `o` followed by the nodes of `r`, or the error of `r`.
pub open spec fn prepend(o: Seq<NodeModel>, r: Result<Seq<NodeModel>, ParseCommandErr>) -> Result<
    Seq<NodeModel>,
    ParseCommandErr,
> {
    match r {
        Ok(x) => Ok(o + x),
        Err(e) => Err(e),
    }
}

/// The command that the contents `w` of a bracket pair denote; `fuel` bounds the nesting.
pub open spec fn call_model(w: Seq<Elem>, fuel: nat) -> Result<CommandModel, ParseCommandErr>
    decreases fuel, 0nat,
{
    match pending_model(w) {
        Err(e) => Err(e),
        Ok(p) => if fuel == 0 {
            Err(ParseCommandErr::EmptyBody)
        } else {
            match args_model(p.args, true, true, seq![], (fuel - 1) as nat) {
                Err(e) => Err(e),
                Ok(a) => Ok(
                    CommandModel {
                        backend: p.backend,
                        name: p.name,
                        attributes: p.attributes,
                        arguments: a,
                    },
                ),
            }
        },
    }
}

/// The argument nodes of a command's argument items.
///
/// Arguments are separated by unescaped `;`. In each argument, unescaped whitespace at the
/// start is dropped, and in its first run of text every escaped space is dropped. Each run of
/// text becomes a text node (empty runs give none), each bracket pair a command node. `lead`
/// holds while leading whitespace is still dropped, `first` while in the first run, and `cur`
/// is the text of the run being read.
pub open spec fn args_model(items: Seq<Item>, lead: bool, first: bool, cur: Seq<Tok>, fuel: nat) -> Result<
    Seq<NodeModel>,
    ParseCommandErr,
>
    decreases fuel, items.len() + 1,
{
    if items.len() == 0 {
        Ok(flush(cur))
    } else {
        let rest = items.drop_first();
        match items[0] {
            Item::T(t) => {
                if is_plain(t, ';') {
                    prepend(flush(cur), args_model(rest, true, true, seq![], fuel))
                } else if lead && is_blank(t) {
                    args_model(rest, true, true, cur, fuel)
                } else if first && t == (true, ' ') {
                    args_model(rest, false, true, cur, fuel)
                } else {
                    args_model(rest, false, first, cur.push(t), fuel)
                }
            },
            Item::G(w) => match call_model(w@, fuel) {
                Err(e) => Err(e),
                Ok(c) => prepend(
                    flush(cur) + seq![NodeModel::Call(c)],
                    args_model(rest, false, false, seq![], fuel),
                ),
            },
        }
    }
}

/// The nodes of a containerized document: each free run is a text node, each bracket pair a
/// command.
pub open spec fn top_model(elems: Seq<Elem>, fuel: nat) -> Result<Seq<NodeModel>, ParseCommandErr>
    decreases elems.len(),
{
    if elems.len() == 0 {
        Ok(seq![])
    } else {
        match elems[0] {
            Containerized::Free(v) => prepend(
                seq![NodeModel::Text(unscan(v@))],
                top_model(elems.drop_first(), fuel),
            ),
            Containerized::Contained(w) => match call_model(w@, fuel) {
                Err(e) => Err(e),
                Ok(c) => prepend(seq![NodeModel::Call(c)], top_model(elems.drop_first(), fuel)),
            },
        }
    }
}

/// Every bracket pair among `items` nests at most `fuel` deep.
pub open spec fn items_fit(items: Seq<Item>, fuel: nat) -> bool {
    forall|i: int|
        0 <= i < items.len() && (#[trigger] items[i]) is G ==> shaped(
            Containerized::Contained(items[i]->G_0),
            fuel,
        )
}

proof fn lemma_items_of_fit(s: Seq<Elem>, f: nat)
    requires
        all_shaped(s, f),
    ensures
        items_fit(items_of(s), f),
    decreases s.len(),
{
    if s.len() > 0 {
        assert(all_shaped(s.drop_first(), f)) by {
            assert forall|j: int| 0 <= j < s.drop_first().len() implies shaped(#[trigger] s.drop_first()[j], f) by {
                assert(s.drop_first()[j] == s[j + 1]);
            }
        }
        lemma_items_of_fit(s.drop_first(), f);
        let r = items_of(s.drop_first());
        match s[0] {
            Containerized::Free(v) => {
                lemma_toks_items_fit(v@, r, f);
            },
            Containerized::Contained(w) => {
                assert(shaped(s[0], f));
                let x = seq![Item::G(w)] + r;
                assert forall|i: int| 0 <= i < x.len() && (#[trigger] x[i]) is G implies shaped(
                    Containerized::Contained(x[i]->G_0),
                    f,
                ) by {
                    if i > 0 {
                        assert(x[i] == r[i - 1]);
                    }
                }
            },
        }
    }
}

proof fn lemma_toks_items_fit(ts: Seq<Tok>, r: Seq<Item>, f: nat)
    requires
        items_fit(r, f),
    ensures
        items_fit(toks_items(ts) + r, f),
{
    let x = toks_items(ts) + r;
    assert forall|i: int| 0 <= i < x.len() && (#[trigger] x[i]) is G implies shaped(
        Containerized::Contained(x[i]->G_0),
        f,
    ) by {
        if i >= ts.len() {
            assert(x[i] == r[i - ts.len()]);
        }
    }
}

proof fn lemma_drop_first_fit(items: Seq<Item>, f: nat)
    requires
        items_fit(items, f),
        items.len() > 0,
    ensures
        items_fit(items.drop_first(), f),
{
    assert forall|i: int| 0 <= i < items.drop_first().len() && (#[trigger] items.drop_first()[i]) is G implies shaped(
        Containerized::Contained(items.drop_first()[i]->G_0),
        f,
    ) by {
        assert(items.drop_first()[i] == items[i + 1]);
    }
}

proof fn lemma_attr_split_fit(src: Seq<Item>, d: int, f: nat)
    requires
        items_fit(src, f),
    ensures
        items_fit(attr_split(src, d).1, f),
    decreases src.len(),
{
    if src.len() > 0 {
        lemma_drop_first_fit(src, f);
        match src[0] {
            Item::T(t) => {
                let nd = if is_plain(t, '{') {
                    d + 1
                } else if is_plain(t, '}') {
                    d - 1
                } else {
                    d
                };
                lemma_attr_split_fit(src.drop_first(), nd, f);
            },
            Item::G(_) => {
                lemma_attr_split_fit(src.drop_first(), d, f);
            },
        }
    }
}

proof fn lemma_pending_fit(w: Seq<Elem>, f: nat)
    requires
        all_shaped(w, f),
        pending_model(w) is Ok,
    ensures
        items_fit(pending_model(w)->Ok_0.args, f),
{
    assert(all_shaped(w.drop_first(), f)) by {
        assert forall|j: int| 0 <= j < w.drop_first().len() implies shaped(#[trigger] w.drop_first()[j], f) by {
            assert(w.drop_first()[j] == w[j + 1]);
        }
    }
    lemma_items_of_fit(w.drop_first(), f);
    if let Containerized::Free(h) = w[0] {
        let hs = h@;
        let k = crate::command::first_index(hs, |t: Tok| crate::command::head_stop(t));
        let rest = items_of(w.drop_first());
        if k < hs.len() {
            lemma_toks_items_fit(hs.skip(k + 1), rest, f);
            lemma_attr_split_fit(toks_items(hs.skip(k + 1)) + rest, 1, f);
        }
    }
}

/// Appends the text node of `cur`, if it is not empty.
fn flush_text(cur: &Vec<Tok>, out: &mut Vec<ASTNode>)
    ensures
        nodes_model(final(out)@) == nodes_model(old(out)@) + flush(cur@),
{
    if cur.len() > 0 {
        let raw = unescape_text(cur.as_slice());
        let n = ASTNode::Text(string_of(&raw));
        proof {
            lemma_nodes_model_push(out@, n);
        }
        out.push(n);
        assert(nodes_model(out@) =~= nodes_model(old(out)@) + flush(cur@));
    } else {
        assert(nodes_model(out@) =~= nodes_model(old(out)@) + flush(cur@));
    }
}

/// Parses the contents of one bracket pair into a command, its arguments included.
fn parse_call(w: Vec<Elem>, Ghost(fuel): Ghost<nat>) -> (r: Result<Command, ParseCommandErr>)
    requires
        shaped(Containerized::Contained(w), fuel),
    ensures
        match call_model(w@, fuel) {
            Ok(c) => r is Ok && command_model(r->Ok_0) == c,
            Err(e) => r == Err::<Command, _>(e),
        },
    decreases fuel, 0nat,
{
    let ghost wv = w@;
    let p = match parse_command(w) {
        Ok(p) => p,
        Err(e) => {
            return Err(e);
        },
    };
    proof {
        lemma_pending_fit(wv, (fuel - 1) as nat);
    }
    let args = match parse_arguments(p.arguments, Ghost((fuel - 1) as nat)) {
        Ok(a) => a,
        Err(e) => {
            return Err(e);
        },
    };
    Ok(Command { backend: p.backend, cmd: p.cmd, attributes: p.attributes, arguments: args })
}

/// Parses a command's argument items into nodes.
fn parse_arguments(args: Vec<Item>, Ghost(fuel): Ghost<nat>) -> (r: Result<Vec<ASTNode>, ParseCommandErr>)
    requires
        items_fit(args@, fuel),
    ensures
        match args_model(args@, true, true, seq![], fuel) {
            Ok(ns) => r is Ok && nodes_model(r->Ok_0@) == ns,
            Err(e) => r == Err::<Vec<ASTNode>, _>(e),
        },
    decreases fuel, 1nat,
{
    let ghost all = args@;
    let mut items = args;
    let mut out: Vec<ASTNode> = Vec::new();
    let mut cur: Vec<Tok> = Vec::new();
    let mut lead = true;
    let mut first = true;
    assert(nodes_model(out@) =~= Seq::<NodeModel>::empty());
    assert(cur@ =~= Seq::<Tok>::empty());
    proof {
        let r = args_model(all, true, true, seq![], fuel);
        if let Ok(x) = r {
            assert(Seq::<NodeModel>::empty() + x =~= x);
        }
    }
    while items.len() > 0
        invariant
            all == args@,
            lead ==> first,
            items_fit(items@, fuel),
            args_model(all, true, true, seq![], fuel) == prepend(
                nodes_model(out@),
                args_model(items@, lead, first, cur@, fuel),
            ),
        decreases items.len(),
    {
        let ghost before = items@;
        let ghost o = nodes_model(out@);
        let ghost c0 = cur@;
        proof {
            lemma_drop_first_fit(before, fuel);
        }
        let it = items.remove(0);
        assert(items@ =~= before.drop_first());
        let ghost lead0 = lead;
        let ghost first0 = first;
        match it {
            Item::T(t) => {
                assert(before[0] == Item::T(t));
                if t.0 == false && t.1 == ';' {
                    flush_text(&cur, &mut out);
                    cur = Vec::new();
                    lead = true;
                    first = true;
                    proof {
                        let r = args_model(items@, true, true, seq![], fuel);
                        assert(args_model(before, lead0, first0, c0, fuel) == prepend(flush(c0), r));
                        if let Ok(x) = r {
                            assert(o + (flush(c0) + x) =~= (o + flush(c0)) + x);
                        }
                        assert(cur@ =~= Seq::<Tok>::empty());
                        assert(nodes_model(out@) == o + flush(c0));
                        assert(args_model(all, true, true, seq![], fuel) == prepend(nodes_model(out@), args_model(items@, lead, first, cur@, fuel)));
                    }
                } else if lead && !t.0 && is_space_char(t.1) {
                    assert(args_model(before, lead0, first0, c0, fuel) == args_model(items@, lead, first, cur@, fuel));
                } else if first && t.0 && t.1 == ' ' {
                    lead = false;
                    assert(args_model(before, lead0, first0, c0, fuel) == args_model(items@, lead, first, cur@, fuel));
                } else {
                    lead = false;
                    cur.push(t);
                    assert(args_model(before, lead0, first0, c0, fuel) == args_model(items@, lead, first, cur@, fuel));
                }
            },
            Item::G(w) => {
                assert(before[0] == Item::G(w));
                let c = match parse_call(w, Ghost(fuel)) {
                    Ok(c) => c,
                    Err(e) => {
                        assert(args_model(before, lead0, first0, c0, fuel) == Err::<Seq<NodeModel>, ParseCommandErr>(e));
                        return Err(e);
                    },
                };
                flush_text(&cur, &mut out);
                let n = ASTNode::CommandCall(c);
                proof {
                    lemma_nodes_model_push(out@, n);
                }
                out.push(n);
                cur = Vec::new();
                lead = false;
                first = false;
                proof {
                    let r = args_model(items@, false, false, seq![], fuel);
                    assert(node_model(n) == NodeModel::Call(command_model(c)));
                    assert(args_model(before, lead0, first0, c0, fuel) == prepend(flush(c0) + seq![node_model(n)], r));
                    if let Ok(x) = r {
                        assert(o + (flush(c0) + seq![node_model(n)] + x) =~= (o + flush(c0) + seq![
                            node_model(n),
                        ]) + x);
                    }
                    assert(cur@ =~= Seq::<Tok>::empty());
                    assert(nodes_model(out@) == o + flush(c0) + seq![node_model(n)]);
                    assert(args_model(all, true, true, seq![], fuel) == prepend(nodes_model(out@), args_model(items@, lead, first, cur@, fuel)));
                }
            },
        }
    }
    let ghost o = nodes_model(out@);
    flush_text(&cur, &mut out);
    Ok(out)
}

/// Parses containerized top-level elements into nodes.
fn parse_nodes(top: Vec<Elem>, Ghost(fuel): Ghost<nat>) -> (r: Result<Vec<ASTNode>, ParseCommandErr>)
    requires
        all_shaped(top@, fuel),
    ensures
        result_model(r) == top_model(top@, fuel),
{
    let ghost all = top@;
    let mut elems = top;
    let mut out: Vec<ASTNode> = Vec::new();
    assert(nodes_model(out@) =~= Seq::<NodeModel>::empty());
    proof {
        if let Ok(x) = top_model(all, fuel) {
            assert(Seq::<NodeModel>::empty() + x =~= x);
        }
    }
    while elems.len() > 0
        invariant
            all == top@,
            all_shaped(elems@, fuel),
            top_model(all, fuel) == prepend(nodes_model(out@), top_model(elems@, fuel)),
        decreases elems.len(),
    {
        let ghost before = elems@;
        let ghost o = nodes_model(out@);
        assert(shaped(before[0], fuel));
        let e = elems.remove(0);
        assert(elems@ =~= before.drop_first());
        assert(all_shaped(elems@, fuel)) by {
            assert forall|j: int| 0 <= j < elems@.len() implies shaped(#[trigger] elems@[j], fuel) by {
                assert(elems@[j] == before[j + 1]);
            }
        }
        let n = match e {
            Containerized::Free(v) => {
                let raw = unescape_text(v.as_slice());
                ASTNode::Text(string_of(&raw))
            },
            Containerized::Contained(w) => match parse_call(w, Ghost(fuel)) {
                Ok(c) => ASTNode::CommandCall(c),
                Err(e) => {
                    assert(before[0] == Containerized::Contained(w));
                    assert(top_model(before, fuel) == Err::<Seq<NodeModel>, ParseCommandErr>(e));
                    return Err(e);
                },
            },
        };
        proof {
            lemma_nodes_model_push(out@, n);
            assert(top_model(before, fuel) == prepend(seq![node_model(n)], top_model(elems@, fuel)));
            if let Ok(x) = top_model(elems@, fuel) {
                assert(o + (seq![node_model(n)] + x) =~= o.push(node_model(n)) + x);
            }
        }
        out.push(n);
    }
    proof {
        assert(top_model(elems@, fuel) == Ok::<Seq<NodeModel>, ParseCommandErr>(seq![]));
        assert(nodes_model(out@) + Seq::<NodeModel>::empty() =~= nodes_model(out@));
    }
    Ok(out)
}

/// The nodes of a parse result, or its error.
pub open spec fn result_model(r: Result<Vec<ASTNode>, ParseCommandErr>) -> Result<
    Seq<NodeModel>,
    ParseCommandErr,
> {
    match r {
        Ok(v) => Ok(nodes_model(v@)),
        Err(e) => Err(e),
    }
}

/// `m` is what the text `s` parses to: its brackets must match, and then its nodes are those
/// of its grouping into free runs and bracket pairs.
pub open spec fn parses_to(s: Seq<char>, m: Result<Seq<NodeModel>, ParseCommandErr>) -> bool {
    let ts = escape_scan(s);
    if has_unmatched_close(ts) {
        m == Err::<Seq<NodeModel>, _>(ParseCommandErr::UnmatchedCloseDelimiter)
    } else if depth(ts) != 0 {
        m == Err::<Seq<NodeModel>, _>(ParseCommandErr::UnmatchedOpenDelimiter)
    } else {
        exists|e: Seq<Elem>|
            flat_seq(e, open_tok(), close_tok()) == ts && runs_ok(e) && all_shaped(e, ts.len() as nat)
                && m == #[trigger] top_model(e, ts.len() as nat)
    }
}

/// Parses a text whose single-line calls are already desugared into nodes.
pub fn parse_desugared(s: String) -> (r: Result<Vec<ASTNode>, ParseCommandErr>)
    ensures
        parses_to(s@, result_model(r)),
{
    let cs = chars_of(s.as_str());
    let ts = auto_escape(&cs);
    let elems = match containerize(&ts) {
        Ok(e) => e,
        Err(e) => {
            proof {
                if !has_unmatched_close(ts@) {
                    assert(ts@.take(ts@.len() as int) =~= ts@);
                    assert(depth(ts@.take(ts@.len() as int)) >= 0);
                }
            }
            return Err(e);
        },
    };
    let ghost e = elems@;
    let r = parse_nodes(elems, Ghost(ts.len() as nat));
    assert(top_model(e, ts@.len() as nat) == result_model(r));
    r
}

/// Parses a source text into its metadata and nodes.
pub fn parse(s: String) -> (r: Result<AST, ParseCommandErr>)
    ensures
        match preprocess_model(s@) {
            Err(e) => r == Err::<AST, _>(e),
            Ok(m) => match r {
                Ok(ast) => pairs_view(ast.metadata@) == m.0 && parses_to(
                    desugar_model(m.1),
                    Ok(nodes_model(ast.nodes@)),
                ),
                Err(e) => parses_to(desugar_model(m.1), Err(e)),
            },
        },
{
    let (metadata, body) = match preprocess(s) {
        Ok(p) => p,
        Err(e) => {
            return Err(e);
        },
    };
    let desugared = desugar_slfcalls(body);
    match parse_desugared(desugared) {
        Ok(nodes) => Ok(AST { metadata, nodes }),
        Err(e) => Err(e),
    }
}

/// `ts` holds no unescaped bracket.
pub open spec fn no_brackets(ts: Seq<Tok>) -> bool {
    forall|k: int| 0 <= k < ts.len() ==> ts[k] != open_tok() && ts[k] != close_tok()
}

proof fn lemma_depth_no_brackets(ts: Seq<Tok>)
    requires
        no_brackets(ts),
    ensures
        depth(ts) == 0,
    decreases ts.len(),
{
    if ts.len() > 0 {
        assert(no_brackets(ts.drop_last())) by {
            assert forall|k: int| 0 <= k < ts.drop_last().len() implies ts.drop_last()[k] != open_tok()
                && ts.drop_last()[k] != close_tok() by {
                assert(ts.drop_last()[k] == ts[k]);
            }
        }
        lemma_depth_no_brackets(ts.drop_last());
        assert(ts.last() == ts[ts.len() - 1]);
    }
}

proof fn lemma_flat_no_brackets_all_free(e: Seq<Elem>)
    requires
        no_brackets(flat_seq(e, open_tok(), close_tok())),
    ensures
        forall|j: int| 0 <= j < e.len() ==> (#[trigger] e[j]) is Free,
    decreases e.len(),
{
    if e.len() > 0 {
        let pre = flat_seq(e.drop_last(), open_tok(), close_tok());
        let f = flat_seq(e, open_tok(), close_tok());
        assert(f == pre + crate::container::flat(e.last(), open_tok(), close_tok()));
        assert(no_brackets(pre)) by {
            assert forall|k: int| 0 <= k < pre.len() implies pre[k] != open_tok() && pre[k] != close_tok() by {
                assert(f[k] == pre[k]);
            }
        }
        lemma_flat_no_brackets_all_free(e.drop_last());
        if let Containerized::Contained(w) = e.last() {
            assert(f[pre.len() as int] == open_tok());
        }
        assert forall|j: int| 0 <= j < e.len() implies (#[trigger] e[j]) is Free by {
            if j < e.len() - 1 {
                assert(e[j] == e.drop_last()[j]);
            }
        }
    }
}

/// A text without unescaped brackets parses to one text node holding the text exactly,
/// escapes included, or to no node when it is empty.
pub proof fn lemma_plain_text_parses_to_itself(s: Seq<char>, m: Result<Seq<NodeModel>, ParseCommandErr>)
    requires
        parses_to(s, m),
        no_brackets(escape_scan(s)),
    ensures
        m == if s.len() == 0 {
            Ok::<Seq<NodeModel>, ParseCommandErr>(seq![])
        } else {
            Ok(seq![NodeModel::Text(s)])
        },
{
    let ts = escape_scan(s);
    assert(!has_unmatched_close(ts)) by {
        if has_unmatched_close(ts) {
            let j = choose|j: int| 0 <= j <= ts.len() && #[trigger] depth(ts.take(j)) < 0;
            assert(no_brackets(ts.take(j))) by {
                assert forall|k: int| 0 <= k < ts.take(j).len() implies ts.take(j)[k] != open_tok()
                    && ts.take(j)[k] != close_tok() by {
                    assert(ts.take(j)[k] == ts[k]);
                }
            }
            lemma_depth_no_brackets(ts.take(j));
        }
    }
    lemma_depth_no_brackets(ts);
    let e = choose|e: Seq<Elem>|
        flat_seq(e, open_tok(), close_tok()) == ts && runs_ok(e) && all_shaped(e, ts.len() as nat) && m
            == #[trigger] top_model(e, ts.len() as nat);
    lemma_flat_no_brackets_all_free(e);
    crate::scan::lemma_scan_round_trip(s);
    if e.len() >= 2 {
        assert(e[0] is Free && e[1] is Free);
        assert(false);
    }
    if e.len() == 0 {
        assert(flat_seq(e, open_tok(), close_tok()).len() == 0);
        if s.len() > 0 {
            assert(ts.len() > 0);
        }
        assert(top_model(e, ts.len() as nat) == Ok::<Seq<NodeModel>, ParseCommandErr>(seq![]));
    } else {
        let v = e[0]->Free_0;
        assert(e.drop_last() =~= Seq::<Elem>::empty());
        assert(e.last() == e[0]);
        assert(flat_seq(e.drop_last(), open_tok(), close_tok()) =~= Seq::<Tok>::empty());
        assert(crate::container::flat(e[0], open_tok(), close_tok()) == v@);
        assert(flat_seq(e, open_tok(), close_tok()) =~= v@);
        assert(e[0] is Free && e[0]->Free_0@.len() > 0);
        assert(s.len() > 0) by {
            if s.len() == 0 {
                assert(ts.len() == 0);
            }
        }
        assert(e.drop_first() =~= Seq::<Elem>::empty());
        assert(top_model(e.drop_first(), ts.len() as nat) == Ok::<Seq<NodeModel>, ParseCommandErr>(seq![]));
        assert(seq![NodeModel::Text(unscan(v@))] + Seq::<NodeModel>::empty() =~= seq![NodeModel::Text(s)]);
    }
}

} // verus!
