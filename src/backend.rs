//! Backends that render parsed documents, and routing a node to the backend it targets.
use vstd::prelude::*;
use crate::ast::{ASTNode, Command, opt_view};
use crate::text::{string_of, chars_of};

verus! {

broadcast use vstd::std_specs::vec::group_vec_axioms, vstd::seq::group_seq_axioms;

/// A renderer of documents into some output format.
pub trait Backend {
    type Rendered;

    /// The id that commands name to target this backend.
    spec fn id(&self) -> Seq<char>;

    /// `r` is what this backend renders for the text `text`.
    spec fn text_outcome(&self, text: Seq<char>, r: Self::Rendered) -> bool;

    /// `r` is what this backend renders for the command `cmd`.
    spec fn command_outcome(&self, cmd: Command, r: Option<Self::Rendered>) -> bool;

    fn backend_id(&self) -> (r: String)
        ensures
            r@ == self.id(),
    ;

    fn emit_text(&mut self, text: String) -> (r: Self::Rendered)
        ensures
            old(self).text_outcome(text@, r),
    ;

    fn run_command(&mut self, cmd: Command) -> (r: Option<Self::Rendered>)
        ensures
            old(self).command_outcome(cmd, r),
    ;
}

/// A command targets the backend `id` when it names no backend or names exactly that one.
pub open spec fn targets(backend: Option<Seq<char>>, id: Seq<char>) -> bool {
    match backend {
        None => true,
        Some(b) => b == id,
    }
}

fn targets_exec(backend: &Option<String>, id: &String) -> (r: bool)
    ensures
        r == targets(opt_view(*backend), id@),
{
    match backend {
        None => true,
        Some(b) => *b == *id,
    }
}

/// Routes a node to the backend: text to `emit_text`, a command that targets the backend to
/// `run_command`; a command meant for another backend is dropped.
pub fn handle_node<B: Backend>(b: &mut B, node: ASTNode) -> (r: Option<B::Rendered>)
    ensures
        node is Text ==> r is Some && old(b).text_outcome(node->Text_0@, r->Some_0),
        node is CommandCall ==> (targets(opt_view(node->CommandCall_0.backend), old(b).id()) ==> old(b).command_outcome(
            node->CommandCall_0,
            r,
        )) && (!targets(opt_view(node->CommandCall_0.backend), old(b).id()) ==> r is None),
{
    match node {
        ASTNode::Text(s) => Some(b.emit_text(s)),
        ASTNode::CommandCall(c) => {
            let id = b.backend_id();
            if targets_exec(&c.backend, &id) {
                b.run_command(c)
            } else {
                None
            }
        },
    }
}

/// The commands that every backend understands.
#[derive(Debug, Clone, Copy, PartialEq, Eq, Structural)]
pub enum BasicCommandType {
    Bold,
    Italic,
    Section(usize),
    VertSpace,
    HorSpace,
    Image,
}

pub open spec fn digit_value(c: char) -> nat {
    (c as u32 - '0' as u32) as nat
}

/// The number written by the decimal digits `s`.
pub open spec fn decimal(s: Seq<char>) -> nat
    decreases s.len(),
{
    if s.len() == 0 {
        0
    } else {
        decimal(s.drop_last()) * 10 + digit_value(s.last())
    }
}

pub open spec fn all_digits(s: Seq<char>) -> bool {
    forall|i: int| 0 <= i < s.len() ==> '0' <= #[trigger] s[i] <= '9'
}

/// The basic command that `name` names: `b`, `i`, `vspace`, `hspace`, `img`, or `sec`
/// followed by decimal digits giving a section depth (`sec` alone is depth 0).
pub open spec fn basic_model(name: Seq<char>) -> Option<BasicCommandType> {
    if name == seq!['b'] {
        Some(BasicCommandType::Bold)
    } else if name == seq!['i'] {
        Some(BasicCommandType::Italic)
    } else if name == seq!['v', 's', 'p', 'a', 'c', 'e'] {
        Some(BasicCommandType::VertSpace)
    } else if name == seq!['h', 's', 'p', 'a', 'c', 'e'] {
        Some(BasicCommandType::HorSpace)
    } else if name == seq!['i', 'm', 'g'] {
        Some(BasicCommandType::Image)
    } else if name.len() >= 3 && name.take(3) == seq!['s', 'e', 'c'] && all_digits(name.skip(3))
        && decimal(name.skip(3)) <= usize::MAX {
        Some(BasicCommandType::Section(decimal(name.skip(3)) as usize))
    } else {
        None
    }
}

fn is_text(v: &Vec<char>, w: &str) -> (r: bool)
    ensures
        r == (v@ == w@),
{
    let wc = chars_of(w);
    if v.len() != wc.len() {
        return false;
    }
    let mut i: usize = 0;
    while i < v.len()
        invariant
            v.len() == wc.len(),
            wc@ == w@,
            i <= v.len(),
            forall|j: int| 0 <= j < i ==> v@[j] == wc@[j],
        decreases v.len() - i,
    {
        if v[i] != wc[i] {
            return false;
        }
        i = i + 1;
    }
    assert(v@ =~= wc@);
    true
}

impl BasicCommandType {
    /// The basic command named `name`, if any.
    pub fn from_name(name: &str) -> (r: Option<BasicCommandType>)
        ensures
            r == basic_model(name@),
    {
        proof {
            reveal_strlit("b");
            reveal_strlit("i");
            reveal_strlit("vspace");
            reveal_strlit("hspace");
            reveal_strlit("img");
            assert("b"@ =~= seq!['b']);
            assert("i"@ =~= seq!['i']);
            assert("vspace"@ =~= seq!['v', 's', 'p', 'a', 'c', 'e']);
            assert("hspace"@ =~= seq!['h', 's', 'p', 'a', 'c', 'e']);
            assert("img"@ =~= seq!['i', 'm', 'g']);
        }
        let v = chars_of(name);
        if is_text(&v, "b") {
            return Some(BasicCommandType::Bold);
        }
        if is_text(&v, "i") {
            return Some(BasicCommandType::Italic);
        }
        if is_text(&v, "vspace") {
            return Some(BasicCommandType::VertSpace);
        }
        if is_text(&v, "hspace") {
            return Some(BasicCommandType::HorSpace);
        }
        if is_text(&v, "img") {
            return Some(BasicCommandType::Image);
        }
        if v.len() < 3 || v[0] != 's' || v[1] != 'e' || v[2] != 'c' {
            assert(!(v@.len() >= 3 && v@.take(3) == seq!['s', 'e', 'c'])) by {
                if v@.len() >= 3 && v@.take(3) == seq!['s', 'e', 'c'] {
                    assert(v@.take(3)[0] == v@[0]);
                    assert(v@.take(3)[1] == v@[1]);
                    assert(v@.take(3)[2] == v@[2]);
                }
            }
            return None;
        }
        assert(v@.take(3) =~= seq!['s', 'e', 'c']);
        let ghost digits = v@.skip(3);
        let mut n: usize = 0;
        let mut i: usize = 3;
        assert(v@.subrange(3, 3) =~= Seq::<char>::empty());
        while i < v.len()
            invariant
                3 <= i <= v.len(),
                v@ == name@,
                v@.take(3) == seq!['s', 'e', 'c'],
                digits == v@.skip(3),
                all_digits(v@.subrange(3, i as int)),
                n as nat == decimal(v@.subrange(3, i as int)),
            decreases v.len() - i,
        {
            let c = v[i];
            if c < '0' || c > '9' {
                assert(!all_digits(digits)) by {
                    assert(digits[i - 3] == c);
                }
                assert(v@[0] == v@.take(3)[0]);
                return None;
            }
            let d = (c as u32 - '0' as u32) as usize;
            assert(v@.subrange(3, i + 1).drop_last() =~= v@.subrange(3, i as int));
            assert(all_digits(v@.subrange(3, i + 1))) by {
                assert forall|j: int| 0 <= j < i + 1 - 3 implies '0' <= #[trigger] v@.subrange(3, i + 1)[j] <= '9' by {
                    if j < i - 3 {
                        assert(v@.subrange(3, i + 1)[j] == v@.subrange(3, i as int)[j]);
                    }
                }
            }
            if n > (usize::MAX - d) / 10 {
                assert(all_digits(digits) ==> decimal(digits) > usize::MAX) by {
                    if all_digits(digits) {
                        lemma_decimal_prefix(digits, i + 1 - 3);
                    }
                    assert(digits.take(i + 1 - 3) =~= v@.subrange(3, i + 1));
                    assert(n * 10 + d > usize::MAX) by (nonlinear_arith)
                        requires n > (usize::MAX - d) / 10, d <= 9;
                }
                assert(v@[0] == v@.take(3)[0]);
                return None;
            }
            n = n * 10 + d;
            i = i + 1;
        }
        assert(v@.subrange(3, i as int) =~= digits);
        assert(v@[0] == v@.take(3)[0]);
        Some(BasicCommandType::Section(n))
    }
}

proof fn lemma_decimal_prefix(s: Seq<char>, k: int)
    requires
        0 <= k <= s.len(),
        all_digits(s),
    ensures
        decimal(s.take(k)) <= decimal(s),
    decreases s.len() - k,
{
    if k < s.len() {
        lemma_decimal_prefix(s, k + 1);
        assert(s.take(k + 1).drop_last() =~= s.take(k));
        assert('0' <= s[k] <= '9');
    } else {
        assert(s.take(k) =~= s);
    }
}

proof fn lemma_decimal_prepend(d: char, acc: Seq<char>)
    ensures
        decimal(seq![d] + acc) == digit_value(d) * pow10(acc.len()) + decimal(acc),
    decreases acc.len(),
{
    if acc.len() == 0 {
        assert((seq![d] + acc).drop_last() =~= Seq::<char>::empty());
        assert(decimal(Seq::<char>::empty()) == 0);
        assert((seq![d] + acc).last() == d);
        assert(pow10(0) == 1);
        assert(decimal(seq![d] + acc) == digit_value(d));
    } else {
        assert((seq![d] + acc).drop_last() =~= seq![d] + acc.drop_last());
        assert((seq![d] + acc).last() == acc.last());
        lemma_decimal_prepend(d, acc.drop_last());
        let p = pow10((acc.len() - 1) as nat);
        assert(pow10(acc.len()) == 10 * p);
        let x = digit_value(d);
        let y = decimal(acc.drop_last());
        assert((x * p + y) * 10 == x * (10 * p) + y * 10) by (nonlinear_arith);
    }
}

pub open spec fn pow10(k: nat) -> nat
    decreases k,
{
    if k == 0 {
        1
    } else {
        10 * pow10((k - 1) as nat)
    }
}

fn digit_char(d: usize) -> (c: char)
    requires
        d < 10,
    ensures
        '0' <= c <= '9',
        digit_value(c) == d,
{
    if d == 0 { '0' } else if d == 1 { '1' } else if d == 2 { '2' } else if d == 3 { '3' } else if d == 4 { '4' }
    else if d == 5 { '5' } else if d == 6 { '6' } else if d == 7 { '7' } else if d == 8 { '8' } else { '9' }
}

/// The decimal digits of `n`, none for zero.
fn decimal_digits(n: usize) -> (r: Vec<char>)
    ensures
        all_digits(r@),
        decimal(r@) == n,
{
    let mut acc: Vec<char> = Vec::new();
    let mut m: usize = n;
    assert(pow10(0) == 1);
    assert(decimal(acc@) == 0);
    while m > 0
        invariant
            all_digits(acc@),
            n == m * pow10(acc@.len()) + decimal(acc@),
        decreases m,
    {
        let c = digit_char(m % 10);
        proof {
            lemma_decimal_prepend(c, acc@);
        }
        let ghost old_acc = acc@;
        acc.insert(0, c);
        assert(acc@ =~= seq![c] + old_acc);
        assert(all_digits(acc@)) by {
            assert forall|j: int| 0 <= j < acc@.len() implies '0' <= #[trigger] acc@[j] <= '9' by {
                if j > 0 {
                    assert(acc@[j] == old_acc[j - 1]);
                }
            }
        }
        let ghost k = old_acc.len();
        let q = m / 10;
        assert(m == 10 * q + (m % 10));
        assert(pow10(k + 1) == 10 * pow10(k));
        assert(m * pow10(k) == q * pow10(k + 1) + (m % 10) * pow10(k)) by (nonlinear_arith)
            requires m == 10 * q + (m % 10), pow10(k + 1) == 10 * pow10(k);
        m = q;
    }
    assert(decimal(acc@) == n);
    acc
}

impl BasicCommandType {
    /// The name of this command, which `from_name` reads back.
    pub fn name(&self) -> (r: String)
        ensures
            basic_model(r@) == Some(*self),
    {
        let mut v: Vec<char> = Vec::new();
        match self {
            BasicCommandType::Bold => {
                v.push('b');
            },
            BasicCommandType::Italic => {
                v.push('i');
            },
            BasicCommandType::VertSpace => {
                v.push('v');
                v.push('s');
                v.push('p');
                v.push('a');
                v.push('c');
                v.push('e');
            },
            BasicCommandType::HorSpace => {
                v.push('h');
                v.push('s');
                v.push('p');
                v.push('a');
                v.push('c');
                v.push('e');
            },
            BasicCommandType::Image => {
                v.push('i');
                v.push('m');
                v.push('g');
            },
            BasicCommandType::Section(n) => {
                v.push('s');
                v.push('e');
                v.push('c');
                let ghost pre = v@;
                let digits = decimal_digits(*n);
                let mut j: usize = 0;
                while j < digits.len()
                    invariant
                        j <= digits.len(),
                        v@ == pre + digits@.take(j as int),
                    decreases digits.len() - j,
                {
                    v.push(digits[j]);
                    j = j + 1;
                    assert(v@ =~= pre + digits@.take(j as int));
                }
                assert(digits@.take(j as int) =~= digits@);
                assert(v@.take(3) =~= seq!['s', 'e', 'c']);
                assert(v@.skip(3) =~= digits@);
                assert(v@[0] == 's');
            },
        }
        let r = string_of(&v);
        proof {
            if v@.len() == 1 {
                assert(v@ =~= seq![v@[0]]);
            }
            if v@.len() == 3 && v@[0] == 'i' {
                assert(v@ =~= seq!['i', 'm', 'g']);
            }
            if v@.len() == 6 && v@[0] != 's' {
                assert(v@ =~= seq![v@[0], 's', 'p', 'a', 'c', 'e']);
            }
        }
        r
    }
}

} // verus!
