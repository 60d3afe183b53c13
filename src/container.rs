//! Grouping a token stream into free runs and bracketed runs, one level per bracket pair.
use vstd::prelude::*;
use crate::scan::{Tok, unscan, escape_scan, lemma_scan_round_trip};
use crate::parser::ParseCommandErr;

verus! {

broadcast use vstd::std_specs::vec::group_vec_axioms, vstd::seq::group_seq_axioms;

/// Either a run of free items, or the contents of one matched bracket pair.
#[derive(Debug, PartialEq, Eq)]
pub enum Containerized<T> {
    Free(T),
    Contained(Vec<Containerized<T>>),
}

/// An element of a containerized token stream.
pub type Elem = Containerized<Vec<Tok>>;

/// The items of `c` with every bracketed run written back between `left` and `right`.
pub open spec fn flat<A>(c: Containerized<Vec<A>>, left: A, right: A) -> Seq<A>
    decreases c,
{
    match c {
        Containerized::Free(v) => v@,
        Containerized::Contained(v) => seq![left] + flat_seq(v@, left, right) + seq![right],
    }
}

/// The concatenation of `flat` over a sequence of elements.
pub open spec fn flat_seq<A>(s: Seq<Containerized<Vec<A>>>, left: A, right: A) -> Seq<A>
    decreases s,
{
    if s.len() == 0 {
        seq![]
    } else {
        flat_seq(s.drop_last(), left, right) + flat(s.last(), left, right)
    }
}

pub open spec fn open_tok() -> Tok {
    (false, '[')
}

pub open spec fn close_tok() -> Tok {
    (false, ']')
}

/// How the bracket depth changes at one token.
pub open spec fn depth_step(t: Tok) -> int {
    if t == open_tok() {
        1
    } else if t == close_tok() {
        -1
    } else {
        0
    }
}

/// Open brackets minus close brackets in `s`.
pub open spec fn depth(s: Seq<Tok>) -> int
    decreases s.len(),
{
    if s.len() == 0 {
        0
    } else {
        depth(s.drop_last()) + depth_step(s.last())
    }
}

/// Some prefix of `s` closes more brackets than it opened.
pub open spec fn has_unmatched_close(s: Seq<Tok>) -> bool {
    exists|j: int| 0 <= j <= s.len() && #[trigger] depth(s.take(j)) < 0
}

/// Every bracket of `s` is matched.
pub open spec fn balanced(s: Seq<Tok>) -> bool {
    !has_unmatched_close(s) && depth(s) == 0
}

/// Free runs in `s` are non-empty, hold no unescaped bracket, and are never next to each other.
pub open spec fn runs_ok(s: Seq<Elem>) -> bool {
    forall|j: int|
        0 <= j < s.len() && (#[trigger] s[j]) is Free ==> s[j]->Free_0@.len() > 0 && bracket_free(s[j]->Free_0@)
            && (j + 1 < s.len() ==> !(s[j + 1] is Free))
}

/// No token of `v` is an unescaped bracket.
pub open spec fn bracket_free(v: Seq<Tok>) -> bool {
    forall|k: int| 0 <= k < v.len() ==> v[k] != open_tok() && v[k] != close_tok()
}

/// `e` nests at most `fuel` bracket pairs deep, and its free runs are coalesced at every level.
pub open spec fn shaped(e: Elem, fuel: nat) -> bool
    decreases fuel,
{
    match e {
        Containerized::Free(_) => true,
        Containerized::Contained(w) => fuel > 0 && runs_ok(w@) && forall|j: int|
            0 <= j < w@.len() ==> shaped(#[trigger] w@[j], (fuel - 1) as nat),
    }
}

/// Every element of `s` is `shaped` within `fuel`.
pub open spec fn all_shaped(s: Seq<Elem>, fuel: nat) -> bool {
    forall|j: int| 0 <= j < s.len() ==> shaped(#[trigger] s[j], fuel)
}

pub proof fn lemma_shaped_mono(e: Elem, f1: nat, f2: nat)
    requires
        shaped(e, f1),
        f1 <= f2,
    ensures
        shaped(e, f2),
    decreases f1,
{
    match e {
        Containerized::Free(_) => {},
        Containerized::Contained(w) => {
            assert forall|j: int| 0 <= j < w@.len() implies shaped(#[trigger] w@[j], (f2 - 1) as nat) by {
                lemma_shaped_mono(w@[j], (f1 - 1) as nat, (f2 - 1) as nat);
            }
        },
    }
}

/// Every frame of a stack of open frames is coalesced and `shaped` within `f`.
pub open spec fn frames_ok(st: Seq<Vec<Elem>>, f: nat) -> bool {
    forall|k: int| 0 <= k < st.len() ==> runs_ok(#[trigger] st[k]@) && all_shaped(st[k]@, f)
}

proof fn lemma_frames_mono(st: Seq<Vec<Elem>>, f: nat)
    requires
        frames_ok(st, f),
    ensures
        frames_ok(st, f + 1),
{
    assert forall|k: int| 0 <= k < st.len() implies all_shaped(#[trigger] st[k]@, f + 1) by {
        assert forall|j: int| 0 <= j < st[k]@.len() implies shaped(#[trigger] st[k]@[j], f + 1) by {
            lemma_shaped_mono(st[k]@[j], f, f + 1);
        }
    }
}

proof fn lemma_frames_push(st: Seq<Vec<Elem>>, fr: Vec<Elem>, f: nat)
    requires
        frames_ok(st, f),
        runs_ok(fr@),
        all_shaped(fr@, f),
    ensures
        frames_ok(st.push(fr), f),
{
    assert forall|k: int| 0 <= k < st.push(fr).len() implies runs_ok(#[trigger] st.push(fr)[k]@)
        && all_shaped(st.push(fr)[k]@, f) by {
        if k < st.len() {
            assert(st.push(fr)[k] == st[k]);
        }
    }
}

proof fn lemma_runs_drop_last(s: Seq<Elem>)
    requires
        runs_ok(s),
        s.len() > 0,
    ensures
        runs_ok(s.drop_last()),
        s.len() >= 2 && s.last() is Free ==> !(s[s.len() - 2] is Free),
{
    assert forall|j: int| 0 <= j < s.drop_last().len() && (#[trigger] s.drop_last()[j]) is Free implies s.drop_last()[j]->Free_0@.len()
        > 0 && bracket_free(s.drop_last()[j]->Free_0@) && (j + 1 < s.drop_last().len() ==> !(s.drop_last()[j + 1] is Free)) by {
        assert(s.drop_last()[j] == s[j]);
        if j + 1 < s.drop_last().len() {
            assert(s.drop_last()[j + 1] == s[j + 1]);
        }
    }
    if s.len() >= 2 && s.last() is Free {
        let j = s.len() - 2;
        if s[j] is Free {
            assert(!(s[j + 1] is Free));
        }
    }
}

proof fn lemma_runs_push(s: Seq<Elem>, e: Elem)
    requires
        runs_ok(s),
        e is Free ==> e->Free_0@.len() > 0 && bracket_free(e->Free_0@) && (s.len() == 0 || !(s.last() is Free)),
    ensures
        runs_ok(s.push(e)),
{
    assert forall|j: int| 0 <= j < s.push(e).len() && (#[trigger] s.push(e)[j]) is Free implies s.push(e)[j]->Free_0@.len()
        > 0 && bracket_free(s.push(e)[j]->Free_0@) && (j + 1 < s.push(e).len() ==> !(s.push(e)[j + 1] is Free)) by {
        if j < s.len() {
            assert(s.push(e)[j] == s[j]);
            if j + 1 < s.len() {
                assert(s.push(e)[j + 1] == s[j + 1]);
            }
        }
    }
}

/// The items of a stack of open frames: each frame above the bottom one was opened by a bracket.
pub open spec fn flat_stack(frames: Seq<Vec<Elem>>) -> Seq<Tok>
    decreases frames.len(),
{
    if frames.len() == 0 {
        seq![]
    } else if frames.len() == 1 {
        flat_seq(frames[0]@, open_tok(), close_tok())
    } else {
        flat_stack(frames.drop_last()) + seq![open_tok()] + flat_seq(
            frames.last()@,
            open_tok(),
            close_tok(),
        )
    }
}

proof fn lemma_flat_seq_push<A>(s: Seq<Containerized<Vec<A>>>, c: Containerized<Vec<A>>, l: A, r: A)
    ensures
        flat_seq(s.push(c), l, r) == flat_seq(s, l, r) + flat(c, l, r),
{
    assert(s.push(c).drop_last() =~= s);
}

proof fn lemma_flat_stack_push(frames: Seq<Vec<Elem>>, f: Vec<Elem>)
    ensures
        frames.len() == 0 ==> flat_stack(frames.push(f)) == flat_seq(f@, open_tok(), close_tok()),
        frames.len() > 0 ==> flat_stack(frames.push(f)) == flat_stack(frames) + seq![open_tok()]
            + flat_seq(f@, open_tok(), close_tok()),
{
    assert(frames.push(f).drop_last() =~= frames);
}

proof fn lemma_depth_take(s: Seq<Tok>, i: int)
    requires
        0 <= i < s.len(),
    ensures
        depth(s.take(i + 1)) == depth(s.take(i)) + depth_step(s[i]),
{
    assert(s.take(i + 1).drop_last() =~= s.take(i));
}

fn copy_items<A: Copy>(out: &mut Vec<A>, v: &Vec<A>)
    ensures
        final(out)@ == old(out)@ + v@,
{
    let mut i: usize = 0;
    while i < v.len()
        invariant
            i <= v.len(),
            out@ == old(out)@ + v@.take(i as int),
        decreases v.len() - i,
    {
        out.push(v[i]);
        i = i + 1;
        assert(out@ =~= old(out)@ + v@.take(i as int));
    }
    assert(v@.take(i as int) =~= v@);
}

impl<A: Copy> Containerized<Vec<A>> {
    /// The items of this element, with `left` and `right` written around each bracketed run.
    pub fn join(&self, left: A, right: A) -> (r: Vec<A>)
        ensures
            r@ == flat(*self, left, right),
        decreases self,
    {
        match self {
            Containerized::Free(v) => {
                let mut r: Vec<A> = Vec::new();
                copy_items(&mut r, v);
                assert(r@ =~= v@);
                r
            },
            Containerized::Contained(v) => {
                let mut r: Vec<A> = Vec::new();
                r.push(left);
                let mut i: usize = 0;
                assert(v@.take(0) =~= Seq::<Containerized<Vec<A>>>::empty());
                while i < v.len()
                    invariant
                        i <= v.len(),
                        *self == Containerized::<Vec<A>>::Contained(*v),
                        r@ == seq![left] + flat_seq(v@.take(i as int), left, right),
                    decreases v.len() - i,
                {
                    proof {
                        vstd::std_specs::vec::axiom_vec_index_decreases(*v, i as int);
                        assert(decreases_to!(*self => self->Contained_0));
                        assert(decreases_to!(*v => v[i as int]));
                        assert(decreases_to!(*self => v[i as int]));
                    }
                    let part = v[i].join(left, right);
                    copy_items(&mut r, &part);
                    proof {
                        assert(v@.take(i + 1) =~= v@.take(i as int).push(v@[i as int]));
                        lemma_flat_seq_push(v@.take(i as int), v@[i as int], left, right);
                    }
                    i = i + 1;
                }
                assert(v@.take(i as int) =~= v@);
                r.push(right);
                r
            },
        }
    }
}

/// The items of a whole element sequence, with `left` and `right` around each bracketed run.
pub fn join_all<A: Copy>(v: &Vec<Containerized<Vec<A>>>, left: A, right: A) -> (r: Vec<A>)
    ensures
        r@ == flat_seq(v@, left, right),
{
    let mut r: Vec<A> = Vec::new();
    let mut i: usize = 0;
    assert(v@.take(0) =~= Seq::<Containerized<Vec<A>>>::empty());
    while i < v.len()
        invariant
            i <= v.len(),
            r@ == flat_seq(v@.take(i as int), left, right),
        decreases v.len() - i,
    {
        let part = v[i].join(left, right);
        copy_items(&mut r, &part);
        proof {
            assert(v@.take(i + 1) =~= v@.take(i as int).push(v@[i as int]));
            lemma_flat_seq_push(v@.take(i as int), v@[i as int], left, right);
        }
        i = i + 1;
    }
    assert(v@.take(i as int) =~= v@);
    r
}

/// Groups a token stream by its unescaped brackets.
///
/// Succeeds exactly when every bracket is matched, and then writing the brackets back
/// around each contained run gives the input again.
pub fn containerize(ts: &Vec<Tok>) -> (r: Result<Vec<Elem>, ParseCommandErr>)
    ensures
        r is Ok <==> balanced(ts@),
        r == Err::<Vec<Elem>, _>(ParseCommandErr::UnmatchedCloseDelimiter) <==> has_unmatched_close(ts@),
        r == Err::<Vec<Elem>, _>(ParseCommandErr::UnmatchedOpenDelimiter) <==> !has_unmatched_close(ts@)
            && depth(ts@) > 0,
        r is Ok ==> flat_seq(r->Ok_0@, open_tok(), close_tok()) == ts@,
        r is Ok ==> runs_ok(r->Ok_0@) && all_shaped(r->Ok_0@, ts.len() as nat),
{
    let mut stack: Vec<Vec<Elem>> = Vec::new();
    stack.push(Vec::new());
    let mut i: usize = 0;
    proof {
        assert(ts@.take(0) =~= Seq::<Tok>::empty());
        assert(flat_seq(stack@[0]@, open_tok(), close_tok()) =~= Seq::<Tok>::empty());
    }
    while i < ts.len()
        invariant
            i <= ts.len(),
            stack.len() >= 1,
            stack.len() - 1 == depth(ts@.take(i as int)),
            forall|j: int| 0 <= j <= i ==> #[trigger] depth(ts@.take(j)) >= 0,
            flat_stack(stack@) == ts@.take(i as int),
            frames_ok(stack@, i as nat),
        decreases ts.len() - i,
    {
        let t = ts[i];
        proof {
            lemma_depth_take(ts@, i as int);
            lemma_frames_mono(stack@, i as nat);
        }
        let ghost prefix = ts@.take(i as int);
        assert(ts@.take(i + 1) =~= prefix.push(t));
        if t.0 == false && t.1 == '[' {
            let fresh: Vec<Elem> = Vec::new();
            proof {
                lemma_flat_stack_push(stack@, fresh);
                assert(flat_seq(fresh@, open_tok(), close_tok()) =~= Seq::<Tok>::empty());
                lemma_frames_push(stack@, fresh, (i + 1) as nat);
            }
            stack.push(fresh);
            assert(flat_stack(stack@) =~= prefix.push(t));
        } else if t.0 == false && t.1 == ']' {
            if stack.len() == 1 {
                assert(depth(ts@.take(i + 1)) < 0);
                return Err(ParseCommandErr::UnmatchedCloseDelimiter);
            }
            let ghost st = stack@;
            let top = stack.pop().unwrap();
            let mut parent = stack.pop().unwrap();
            let ghost below = stack@;
            let ghost old_parent = parent@;
            proof {
                lemma_flat_stack_push(below, parent);
                lemma_flat_stack_push(below.push(parent), top);
                assert(below.push(parent).push(top) =~= st);
            }
            parent.push(Containerized::Contained(top));
            proof {
                lemma_flat_seq_push(old_parent, Containerized::Contained(top), open_tok(), close_tok());
                lemma_flat_stack_push(below, parent);
                assert(st[st.len() - 1] == top);
                assert(st[st.len() - 2]@ == old_parent);
                let c = Containerized::Contained(top);
                assert(shaped(c, (i + 1) as nat));
                lemma_runs_push(old_parent, c);
                assert(parent@ == old_parent.push(c));
                assert(all_shaped(parent@, (i + 1) as nat)) by {
                    assert forall|j: int| 0 <= j < parent@.len() implies shaped(#[trigger] parent@[j], (i + 1) as nat) by {
                        if j < old_parent.len() {
                            assert(parent@[j] == old_parent[j]);
                        }
                    }
                }
                assert(frames_ok(below, (i + 1) as nat)) by {
                    assert forall|k: int| 0 <= k < below.len() implies runs_ok(#[trigger] below[k]@) && all_shaped(below[k]@, (i + 1) as nat) by {
                        assert(below[k] == st[k]);
                    }
                }
                lemma_frames_push(below, parent, (i + 1) as nat);
            }
            stack.push(parent);
        } else {
            let ghost st = stack@;
            let mut top = stack.pop().unwrap();
            let ghost below = stack@;
            assert(below.push(top) =~= st);
            let ghost old_top = top@;
            proof {
                lemma_flat_stack_push(below, top);
                assert(st[st.len() - 1] == top);
                assert(frames_ok(below, (i + 1) as nat)) by {
                    assert forall|k: int| 0 <= k < below.len() implies runs_ok(#[trigger] below[k]@) && all_shaped(below[k]@, (i + 1) as nat) by {
                        assert(below[k] == st[k]);
                    }
                }
            }
            match top.pop() {
                Some(Containerized::Free(mut v)) => {
                    let ghost rest = top@;
                    proof {
                        assert(old_top =~= rest.push(Containerized::Free(v)));
                        lemma_flat_seq_push(rest, Containerized::Free(v), open_tok(), close_tok());
                    }
                    let ghost v0 = v@;
                    proof {
                        lemma_runs_drop_last(old_top);
                        assert(old_top[old_top.len() - 1] == Containerized::<Vec<Tok>>::Free(v));
                    }
                    v.push(t);
                    assert(bracket_free(v@)) by {
                        assert forall|k: int| 0 <= k < v@.len() implies v@[k] != open_tok() && v@[k] != close_tok() by {
                            if k < v0.len() {
                                assert(v@[k] == v0[k]);
                            }
                        }
                    }
                    proof {
                        lemma_flat_seq_push(rest, Containerized::Free(v), open_tok(), close_tok());
                        lemma_runs_drop_last(old_top);
                        lemma_runs_push(rest, Containerized::Free(v));
                    }
                    top.push(Containerized::Free(v));
                    assert(all_shaped(top@, (i + 1) as nat)) by {
                        assert forall|j: int| 0 <= j < top@.len() implies shaped(#[trigger] top@[j], (i + 1) as nat) by {
                            if j < rest.len() {
                                assert(top@[j] == old_top[j]);
                            }
                        }
                    }
                },
                Some(other) => {
                    top.push(other);
                    assert(top@ =~= old_top);
                    let e = Containerized::Free(vec![t]);
                    proof {
                        lemma_flat_seq_push(old_top, e, open_tok(), close_tok());
                        lemma_runs_push(old_top, e);
                    }
                    top.push(e);
                    assert(all_shaped(top@, (i + 1) as nat)) by {
                        assert forall|j: int| 0 <= j < top@.len() implies shaped(#[trigger] top@[j], (i + 1) as nat) by {
                            if j < old_top.len() {
                                assert(top@[j] == old_top[j]);
                            }
                        }
                    }
                },
                None => {
                    assert(old_top =~= Seq::<Elem>::empty());
                    let e = Containerized::Free(vec![t]);
                    proof {
                        lemma_flat_seq_push(old_top, e, open_tok(), close_tok());
                        lemma_runs_push(old_top, e);
                    }
                    top.push(e);
                    assert(all_shaped(top@, (i + 1) as nat));
                },
            }
            proof {
                lemma_flat_stack_push(below, top);
                lemma_frames_push(below, top, (i + 1) as nat);
            }
            stack.push(top);
        }
        i = i + 1;
    }
    assert(ts@.take(ts.len() as int) =~= ts@);
    if stack.len() > 1 {
        return Err(ParseCommandErr::UnmatchedOpenDelimiter);
    }
    let res = stack.pop().unwrap();
    assert(stack@.push(res)[0] == res);
    Ok(res)
}

/// Rejoining the runs that containerizing a text's scan gives, with the bracket characters
/// and escape backslashes written back, reproduces the text exactly.
pub proof fn lemma_containerize_round_trip(s: Seq<char>, e: Seq<Elem>)
    requires
        flat_seq(e, open_tok(), close_tok()) == escape_scan(s),
    ensures
        unscan(flat_seq(e, open_tok(), close_tok())) == s,
{
    lemma_scan_round_trip(s);
}

} // verus!
