//! Escape-aware scanning: every backslash is paired with the character after it.
use vstd::prelude::*;

verus! {

/// A scanned character: whether it was preceded by an escape backslash, and the character.
pub type Tok = (bool, char);

/// The scan of `s`: a backslash followed by a character yields that character marked as
/// escaped; a trailing lone backslash stays a plain character.
pub open spec fn escape_scan(s: Seq<char>) -> Seq<Tok>
    decreases s.len(),
{
    if s.len() == 0 {
        seq![]
    } else if s[0] == '\\' && s.len() >= 2 {
        seq![(true, s[1])] + escape_scan(s.subrange(2, s.len() as int))
    } else {
        seq![(false, s[0])] + escape_scan(s.subrange(1, s.len() as int))
    }
}

/// The source text of one token.
pub open spec fn tok_text(t: Tok) -> Seq<char> {
    if t.0 {
        seq!['\\', t.1]
    } else {
        seq![t.1]
    }
}

/// The source text of a token sequence.
pub open spec fn unscan(ts: Seq<Tok>) -> Seq<char>
    decreases ts.len(),
{
    if ts.len() == 0 {
        seq![]
    } else {
        unscan(ts.drop_last()) + tok_text(ts.last())
    }
}

/// The plain characters of a token sequence, escapes dropped.
pub open spec fn tok_chars(ts: Seq<Tok>) -> Seq<char> {
    ts.map_values(|t: Tok| t.1)
}

pub proof fn lemma_unscan_push(ts: Seq<Tok>, t: Tok)
    ensures
        unscan(ts.push(t)) == unscan(ts) + tok_text(t),
{
    assert(ts.push(t).drop_last() =~= ts);
}

pub proof fn lemma_unscan_append(a: Seq<Tok>, b: Seq<Tok>)
    ensures
        unscan(a + b) == unscan(a) + unscan(b),
    decreases b.len(),
{
    if b.len() == 0 {
        assert(a + b =~= a);
        assert(unscan(b) =~= seq![]);
        assert(unscan(a) + unscan(b) =~= unscan(a));
    } else {
        lemma_unscan_append(a, b.drop_last());
        assert((a + b).drop_last() =~= a + b.drop_last());
        assert(unscan(a) + unscan(b) =~= unscan(a) + unscan(b.drop_last()) + tok_text(b.last()));
    }
}

pub proof fn lemma_unscan_single(t: Tok)
    ensures
        unscan(seq![t]) == tok_text(t),
{
    lemma_unscan_push(Seq::<Tok>::empty(), t);
    assert(Seq::<Tok>::empty().push(t) =~= seq![t]);
    assert(unscan(Seq::<Tok>::empty()) =~= Seq::<char>::empty());
    assert(Seq::<char>::empty() + tok_text(t) =~= tok_text(t));
}

/// Scanning and then writing the tokens back gives the source text unchanged.
pub proof fn lemma_scan_round_trip(s: Seq<char>)
    ensures
        unscan(escape_scan(s)) == s,
    decreases s.len(),
{
    if s.len() == 0 {
    } else if s[0] == '\\' && s.len() >= 2 {
        let rest = s.subrange(2, s.len() as int);
        lemma_scan_round_trip(rest);
        lemma_unscan_append(seq![(true, s[1])], escape_scan(rest));
        lemma_unscan_single((true, s[1]));
        assert(s =~= seq!['\\', s[1]] + rest);
    } else {
        let rest = s.subrange(1, s.len() as int);
        lemma_scan_round_trip(rest);
        lemma_unscan_append(seq![(false, s[0])], escape_scan(rest));
        lemma_unscan_single((false, s[0]));
        assert(s =~= seq![s[0]] + rest);
    }
}

/// Scans `s` into escape-marked tokens, with the backslash as escape indicator.
pub fn auto_escape(s: &Vec<char>) -> (r: Vec<Tok>)
    ensures
        r@ == escape_scan(s@),
{
    let mut r: Vec<Tok> = Vec::new();
    let mut i: usize = 0;
    assert(s@.subrange(0, s.len() as int) =~= s@);
    assert(r@ + escape_scan(s@) =~= escape_scan(s@));
    while i < s.len()
        invariant
            i <= s.len(),
            escape_scan(s@) == r@ + escape_scan(s@.subrange(i as int, s.len() as int)),
        decreases s.len() - i,
    {
        let ghost rest = s@.subrange(i as int, s.len() as int);
        if s[i] == '\\' && i + 1 < s.len() {
            r.push((true, s[i + 1]));
            assert(rest.subrange(2, rest.len() as int) =~= s@.subrange(i + 2, s.len() as int));
            i = i + 2;
        } else {
            r.push((false, s[i]));
            assert(rest.subrange(1, rest.len() as int) =~= s@.subrange(i + 1, s.len() as int));
            i = i + 1;
        }
    }
    assert(s@.subrange(i as int, s.len() as int) =~= Seq::<char>::empty());
    assert(r@ + Seq::<Tok>::empty() =~= r@);
    r
}

/// Writes tokens back as source text, restoring each escape backslash.
pub fn unescape_text(ts: &[Tok]) -> (r: Vec<char>)
    ensures
        r@ == unscan(ts@),
{
    let mut r: Vec<char> = Vec::new();
    let mut i: usize = 0;
    while i < ts.len()
        invariant
            i <= ts.len(),
            r@ == unscan(ts@.subrange(0, i as int)),
        decreases ts.len() - i,
    {
        proof {
            lemma_unscan_push(ts@.subrange(0, i as int), ts@[i as int]);
            assert(ts@.subrange(0, i as int).push(ts@[i as int]) =~= ts@.subrange(0, i + 1));
        }
        if ts[i].0 {
            r.push('\\');
        }
        r.push(ts[i].1);
        i = i + 1;
    }
    assert(ts@.subrange(0, i as int) =~= ts@);
    r
}

/// A scanner that hands out the tokens of a text one at a time.
pub struct AutoEscape {
    chars: Vec<char>,
    pos: usize,
}

impl AutoEscape {
    /// The tokens not handed out yet.
    pub closed spec fn remaining(&self) -> Seq<Tok> {
        escape_scan(self.chars@.skip(self.pos as int))
    }

    pub closed spec fn wf(&self) -> bool {
        self.pos <= self.chars@.len()
    }

    /// A scanner over `chars`, with all of its tokens still to come.
    pub fn new(chars: Vec<char>) -> (r: Self)
        ensures
            r.wf(),
            r.remaining() == escape_scan(chars@),
    {
        let r = AutoEscape { chars, pos: 0 };
        assert(r.chars@.skip(0) =~= r.chars@);
        r
    }

    /// The next token, or `None` once all have been handed out.
    pub fn next(&mut self) -> (r: Option<Tok>)
        requires
            old(self).wf(),
        ensures
            final(self).wf(),
            old(self).remaining().len() == 0 ==> r is None && final(self).remaining() == old(self).remaining(),
            old(self).remaining().len() > 0 ==> r == Some(old(self).remaining()[0])
                && final(self).remaining() == old(self).remaining().drop_first(),
    {
        let ghost rest = self.chars@.skip(self.pos as int);
        if self.pos >= self.chars.len() {
            assert(rest.len() == 0);
            return None;
        }
        let c = self.chars[self.pos];
        if c == '\\' && self.chars.len() - self.pos >= 2 {
            let t = (true, self.chars[self.pos + 1]);
            assert(rest.subrange(2, rest.len() as int) =~= self.chars@.skip(self.pos + 2));
            assert((seq![t] + escape_scan(rest.subrange(2, rest.len() as int))).drop_first() =~= escape_scan(self.chars@.skip(self.pos + 2)));
            self.pos = self.pos + 2;
            Some(t)
        } else {
            let t = (false, c);
            assert(rest.subrange(1, rest.len() as int) =~= self.chars@.skip(self.pos + 1));
            assert((seq![t] + escape_scan(rest.subrange(1, rest.len() as int))).drop_first() =~= escape_scan(self.chars@.skip(self.pos + 1)));
            self.pos = self.pos + 1;
            Some(t)
        }
    }
}

} // verus!
