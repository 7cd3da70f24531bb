use crate::error::CompileError;
use crate::yard::{lemma_failure_is_final, pop_until, popped, to_postfix, yard_after, Yard};
use vstd::prelude::*;
use vstd::utf8::encode_utf8;

verus! {

/// A token of a pattern. `Concat` never occurs in the text of a pattern: it
/// is inserted between two adjacent atoms.
#[derive(Clone, Copy, Debug, PartialEq, Eq, PartialOrd, Structural)]
pub enum Op {
    Leftparen,
    Rightparen,
    Alter,
    Concat,
    Dupstar,
    Word(u8),
}

impl Op {
    /// How tightly a token binds: alternation loosest of the operators, then
    /// concatenation, then repetition. The parentheses rank below every
    /// operator, so that a closing one sends to the output every operator
    /// above the group's opening; a literal ranks above all.
    pub open spec fn precedence(self) -> int {
        match self {
            Op::Leftparen => 0,
            Op::Rightparen => 1,
            Op::Alter => 2,
            Op::Concat => 3,
            Op::Dupstar => 4,
            Op::Word(_) => 5,
        }
    }

    /// The precedence as a machine integer.
    pub fn rank(&self) -> (r: u8)
        ensures
            r == self.precedence(),
    {
        match self {
            Op::Leftparen => 0,
            Op::Rightparen => 1,
            Op::Alter => 2,
            Op::Concat => 3,
            Op::Dupstar => 4,
            Op::Word(_) => 5,
        }
    }

    /// Whether an atom can begin with this token. A pattern's bytes never
    /// give a `Concat`; one that is handed in counts as a literal would.
    pub open spec fn starts_atom(self) -> bool {
        self is Word || self is Leftparen || self is Concat
    }

    /// Whether, right after this token, the enclosing group or alternative
    /// still lacks its first atom.
    pub open spec fn awaits_atom(self) -> bool {
        self is Leftparen || self is Alter
    }
}

/// The byte `(`, which opens a group.
pub const OPEN_GROUP: u8 = 40;

/// The byte `)`, which closes a group.
pub const CLOSE_GROUP: u8 = 41;

/// The byte `*`, which repeats the atom before it.
pub const STAR: u8 = 42;

/// The byte `|`, which separates alternatives.
pub const BAR: u8 = 124;

/// The token that one byte of a pattern stands for.
pub open spec fn token_of(b: u8) -> Op {
    if b == OPEN_GROUP {
        Op::Leftparen
    } else if b == CLOSE_GROUP {
        Op::Rightparen
    } else if b == STAR {
        Op::Dupstar
    } else if b == BAR {
        Op::Alter
    } else {
        Op::Word(b)
    }
}

/// Whether a `Concat` belongs between two adjacent tokens.
pub open spec fn concat_between(prev: Op, next: Op) -> bool {
    !prev.awaits_atom() && next.starts_atom()
}

/// The tokens `raw` with a `Concat` inserted wherever one atom follows
/// another.
pub open spec fn with_concats(raw: Seq<Op>) -> Seq<Op>
    decreases raw.len(),
{
    if raw.len() == 0 {
        Seq::empty()
    } else {
        let head = with_concats(raw.drop_last());
        if raw.len() >= 2 && concat_between(raw[raw.len() - 2], raw.last()) {
            head.push(Op::Concat).push(raw.last())
        } else {
            head.push(raw.last())
        }
    }
}

/// The infix token sequence of a pattern given as bytes.
pub open spec fn tokenize(pattern: Seq<u8>) -> Seq<Op> {
    with_concats(pattern.map_values(|b: u8| token_of(b)))
}

/// Reads one byte of a pattern as a token.
pub fn read_token(b: u8) -> (op: Op)
    ensures
        op == token_of(b),
{
    if b == OPEN_GROUP {
        Op::Leftparen
    } else if b == CLOSE_GROUP {
        Op::Rightparen
    } else if b == STAR {
        Op::Dupstar
    } else if b == BAR {
        Op::Alter
    } else {
        Op::Word(b)
    }
}

/// Remembers, while tokens go by, whether the next atom would be the first
/// of its group or alternative.
pub struct ConcatDetector {
    pub awaits_atom: bool,
}

impl ConcatDetector {
    /// The detector before the first token.
    pub fn new() -> (d: ConcatDetector)
        ensures
            d.awaits_atom,
    {
        ConcatDetector { awaits_atom: true }
    }

    /// Takes the next token and says whether a `Concat` goes before it:
    /// one does where the token begins an atom and an atom came before it.
    /// A `Concat` handed in is taken as a literal would be.
    pub fn have_concat(&mut self, op: Op) -> (res: bool)
        ensures
            res == (!old(self).awaits_atom && op.starts_atom()),
            final(self).awaits_atom == op.awaits_atom(),
    {
        let res = !self.awaits_atom;
        match op {
            Op::Rightparen | Op::Dupstar => {
                self.awaits_atom = false;
                false
            },
            Op::Alter => {
                self.awaits_atom = true;
                false
            },
            Op::Leftparen => {
                self.awaits_atom = true;
                res
            },
            _ => {
                self.awaits_atom = false;
                res
            },
        }
    }
}

/// A pattern as tokens, in the order written and in postfix order.
pub struct Regex {
    /// The tokens in the order written, concatenation made explicit.
    pub infix: Vec<Op>,
    /// The tokens in postfix order; empty where they have none.
    pub postfix: Vec<Op>,
}

impl Regex {
    /// The pattern without tokens.
    pub fn default() -> (re: Regex)
        ensures
            re.infix@ == Seq::<Op>::empty(),
            re.postfix@ == Seq::<Op>::empty(),
    {
        Regex { infix: Vec::new(), postfix: Vec::new() }
    }

    /// Reads a pattern: its tokens in the order written, and in postfix
    /// order. Every byte is accepted as a token: one that is none of `(`,
    /// `)`, `*`, `|` stands for itself. Where the tokens have no postfix
    /// order, because a group is not closed or not opened, the postfix form
    /// is left empty.
    pub fn from_bytes(pattern: &[u8]) -> (re: Regex)
        ensures
            re.infix@ == tokenize(pattern@),
            re.postfix@ == (match to_postfix(tokenize(pattern@)) {
                Some(postfix) => postfix,
                None => Seq::empty(),
            }),
    {
        let ghost raw = pattern@.map_values(|b: u8| token_of(b));
        let mut res: Vec<Op> = Vec::new();
        let mut concat_detector = ConcatDetector::new();
        let mut i: usize = 0;
        while i < pattern.len()
            invariant
                i <= pattern.len(),
                raw == pattern@.map_values(|b: u8| token_of(b)),
                res@ == with_concats(raw.take(i as int)),
                concat_detector.awaits_atom == (i == 0 || raw[i - 1].awaits_atom()),
            decreases pattern.len() - i,
        {
            let op = read_token(pattern[i]);
            proof {
                assert(raw.take(i + 1).drop_last() =~= raw.take(i as int));
            }
            if concat_detector.have_concat(op) {
                res.push(Op::Concat);
            }
            res.push(op);
            i = i + 1;
        }
        proof {
            assert(raw.take(i as int) =~= raw);
        }
        let infix = Regex { infix: res, postfix: Vec::new() };
        match infix.convert_infix() {
            Ok(postfix) => Regex { infix: infix.infix, postfix },
            Err(_) => infix,
        }
    }

    /// The tokens in postfix order.
    pub fn get_postfix_form(&self) -> (postfix: &Vec<Op>)
        ensures
            postfix@ == self.postfix@,
    {
        &self.postfix
    }

    /// Orders the infix tokens in postfix and keeps them as they are.
    /// Fails, with `SyntaxError`, exactly where a group is closed that was
    /// not opened, or opened and never closed.
    pub fn build_postfix_form(self) -> (res: Result<Regex, CompileError>)
        ensures
            match res {
                Ok(re) => re.infix@ == self.infix@ && to_postfix(self.infix@) == Some(re.postfix@),
                Err(e) => e == CompileError::SyntaxError && to_postfix(self.infix@) is None,
            },
    {
        match self.convert_infix() {
            Ok(postfix) => Ok(Regex { infix: self.infix, postfix }),
            Err(e) => Err(e),
        }
    }

    /// The infix tokens in postfix order, by the shunting-yard method:
    /// literals go to the output at once, operators wait on a stack until
    /// one that binds no tighter arrives, and a closing parenthesis sends
    /// out what waits above the opening one. Fails, with `SyntaxError`,
    /// exactly where a group is closed that was not opened, or opened and
    /// never closed.
    pub fn convert_infix(&self) -> (res: Result<Vec<Op>, CompileError>)
        ensures
            match res {
                Ok(postfix) => to_postfix(self.infix@) == Some(postfix@),
                Err(e) => e == CompileError::SyntaxError && to_postfix(self.infix@) is None,
            },
    {
        let mut op_stack: Vec<Op> = Vec::new();
        let mut result: Vec<Op> = Vec::new();
        let mut i: usize = 0;
        while i < self.infix.len()
            invariant
                i <= self.infix.len(),
                yard_after(self.infix@.take(i as int)) == Some(
                    Yard { stack: op_stack@, output: result@ },
                ),
            decreases self.infix.len() - i,
        {
            let op = self.infix[i];
            proof {
                assert(self.infix@.take(i + 1).drop_last() =~= self.infix@.take(i as int));
            }
            match op {
                Op::Word(_) => {
                    result.push(op);
                },
                Op::Leftparen => {
                    op_stack.push(op);
                },
                Op::Rightparen => {
                    pop_until(&mut op_stack, &mut result, op);
                    if op_stack.len() == 0 {
                        proof {
                            lemma_failure_is_final(self.infix@, i + 1);
                        }
                        return Err(CompileError::SyntaxError);
                    }
                    op_stack.pop();
                },
                _ => {
                    pop_until(&mut op_stack, &mut result, op);
                    op_stack.push(op);
                },
            }
            i = i + 1;
        }
        proof {
            assert(self.infix@.take(i as int) =~= self.infix@);
        }
        let ghost rest = op_stack@;
        let ghost emitted = result@;
        while op_stack.len() > 0
            invariant
                op_stack.len() <= rest.len(),
                op_stack@ == rest.take(op_stack.len() as int),
                result@ == emitted + popped(rest, (rest.len() - op_stack.len()) as nat),
                forall|j: int| op_stack.len() <= j < rest.len() ==> rest[j] != Op::Leftparen,
                yard_after(self.infix@) == Some(Yard { stack: rest, output: emitted }),
            decreases op_stack.len(),
        {
            let ghost k = (rest.len() - op_stack.len()) as nat;
            let top = op_stack[op_stack.len() - 1];
            if matches!(top, Op::Leftparen) {
                proof {
                    assert(rest[op_stack.len() - 1] == Op::Leftparen);
                }
                return Err(CompileError::SyntaxError);
            }
            op_stack.pop();
            result.push(top);
            proof {
                assert((emitted + popped(rest, k)).push(top) =~= emitted + popped(rest, k + 1));
            }
        }
        Ok(result)
    }
}

impl<'a> From<&'a String> for Regex {
    /// Reads a pattern given as a string: the bytes of its UTF-8 encoding
    /// are the pattern.
    fn from(s: &'a String) -> (re: Regex)
        ensures
            re.infix@ == tokenize(encode_utf8(s@)),
            re.postfix@ == (match to_postfix(tokenize(encode_utf8(s@))) {
                Some(postfix) => postfix,
                None => Seq::empty(),
            }),
    {
        Regex::from_bytes(s.as_str().as_bytes())
    }
}

/// No spec function can make up the vectors of a `Regex`, so the trait's
/// own is left open: what `from` returns is stated on `from` itself.
impl<'a> vstd::std_specs::convert::FromSpecImpl<&'a String> for Regex {
    open spec fn obeys_from_spec() -> bool {
        false
    }

    open spec fn from_spec(s: &'a String) -> Regex {
        arbitrary()
    }
}

} // verus!
