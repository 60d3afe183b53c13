//! Splitting a text at a separator, keeping each separator as a piece of its own.
use vstd::prelude::*;
use crate::text::{string_of, chars_of};

verus! {

broadcast use vstd::std_specs::vec::group_vec_axioms, vstd::seq::group_seq_axioms;

/// The pieces of `s` between occurrences of `sep`, each separator following the piece before
/// it as a piece of its own; `cur` is the piece read so far. An empty text gives no piece,
/// and nothing follows a final separator.
pub open spec fn split_keep(s: Seq<char>, sep: char, cur: Seq<char>) -> Seq<Seq<char>>
    decreases s.len(),
{
    if s.len() == 0 {
        if cur.len() > 0 {
            seq![cur]
        } else {
            seq![]
        }
    } else if s[0] == sep {
        seq![cur, seq![sep]] + split_keep(s.drop_first(), sep, seq![])
    } else {
        split_keep(s.drop_first(), sep, cur.push(s[0]))
    }
}

/// Splits `s` at every `sep`, keeping the separators as pieces of their own.
pub fn str_split_keep_sep(s: &str, sep: char) -> (r: Vec<String>)
    ensures
        r@.map_values(|x: String| x@) == split_keep(s@, sep, seq![]),
{
    let cs = chars_of(s);
    let mut r: Vec<String> = Vec::new();
    let mut cur: Vec<char> = Vec::new();
    let mut i: usize = 0;
    assert(cs@.skip(0) =~= cs@);
    assert(r@.map_values(|x: String| x@) =~= Seq::<Seq<char>>::empty());
    while i < cs.len()
        invariant
            i <= cs.len(),
            cs@ == s@,
            split_keep(s@, sep, seq![]) == r@.map_values(|x: String| x@) + split_keep(cs@.skip(i as int), sep, cur@),
        decreases cs.len() - i,
    {
        let ghost rest = cs@.skip(i as int);
        let ghost r0 = r@.map_values(|x: String| x@);
        assert(rest.drop_first() =~= cs@.skip(i + 1));
        assert(rest[0] == cs@[i as int]);
        if cs[i] == sep {
            let piece = string_of(&cur);
            let mut sv: Vec<char> = Vec::new();
            sv.push(sep);
            assert(sv@ =~= seq![sep]);
            let mark = string_of(&sv);
            r.push(piece);
            r.push(mark);
            assert(r@.map_values(|x: String| x@) =~= r0 + seq![cur@, seq![sep]]);
            cur = Vec::new();
            assert(cur@ =~= Seq::<char>::empty());
            assert(r0 + (seq![piece@, seq![sep]] + split_keep(cs@.skip(i + 1), sep, seq![])) =~= r@.map_values(
                |x: String| x@,
            ) + split_keep(cs@.skip(i + 1), sep, cur@));
        } else {
            cur.push(cs[i]);
        }
        i = i + 1;
    }
    let ghost r0 = r@.map_values(|x: String| x@);
    assert(cs@.skip(i as int) =~= Seq::<char>::empty());
    if cur.len() > 0 {
        let piece = string_of(&cur);
        r.push(piece);
        assert(r@.map_values(|x: String| x@) =~= r0 + seq![cur@]);
    } else {
        assert(r@.map_values(|x: String| x@) =~= r0 + Seq::<Seq<char>>::empty());
    }
    r
}

} // verus!
