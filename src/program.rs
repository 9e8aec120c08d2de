//! Instructions, programs, and the parser that resolves each bracket to its partner.

use vstd::prelude::*;

verus! {

/// One instruction of the tape machine.
///
/// `JumpLeft` stands for `[` and holds the index of its matching `]`;
/// `JumpRight` stands for `]` and holds the index of its matching `[`.
#[derive(Clone, Copy, Debug, PartialEq, Eq, Structural)]
pub enum Instruction {
    MoveLeft,
    MoveRight,
    Increment,
    Decrement,
    Write,
    Read,
    JumpLeft(usize),
    JumpRight(usize),
}

/// Whether `c` is one of the eight characters of the language.
pub open spec fn is_token_char(c: char) -> bool {
    c == '<' || c == '>' || c == '+' || c == '-' || c == '.' || c == ',' || c == '[' || c == ']'
}

/// The token characters of a source text, in order; everything else is dropped.
pub open spec fn tokens(s: Seq<char>) -> Seq<char> {
    s.filter(|c: char| is_token_char(c))
}

/// Opening brackets minus closing brackets in `t`.
pub open spec fn depth(t: Seq<char>) -> int
    decreases t.len(),
{
    if t.len() == 0 {
        0
    } else {
        depth(t.drop_last()) + if t.last() == '[' {
            1int
        } else if t.last() == ']' {
            -1int
        } else {
            0int
        }
    }
}

/// Every prefix of `t` closes no more brackets than it opened, and `t` closes them all.
pub open spec fn balanced(t: Seq<char>) -> bool {
    &&& forall|k: int| 0 <= k <= t.len() ==> depth(#[trigger] t.take(k)) >= 0
    &&& depth(t) == 0
}

/// The token string that a sequence of instructions is written as.
pub open spec fn tokens_of(p: Seq<Instruction>) -> Seq<char> {
    p.map_values(|i: Instruction| i.token())
}

/// The jump targets of `p` pair each `[` with its matching `]`: the pairs point at
/// each other, the `[` comes first, and no two pairs cross.
pub open spec fn resolved(p: Seq<Instruction>) -> bool {
    &&& forall|i: int|
        #![trigger p[i]]
        0 <= i < p.len() && p[i] is JumpLeft ==> {
            let j = p[i]->JumpLeft_0 as int;
            i < j < p.len() && p[j] is JumpRight && p[j]->JumpRight_0 as int == i
        }
    &&& forall|j: int|
        #![trigger p[j]]
        0 <= j < p.len() && p[j] is JumpRight ==> {
            let i = p[j]->JumpRight_0 as int;
            0 <= i < j && p[i] is JumpLeft && p[i]->JumpLeft_0 as int == j
        }
    &&& forall|i: int, k: int|
        0 <= i < k < p.len() && #[trigger] p[i] is JumpLeft && #[trigger] p[k] is JumpLeft && k
            < p[i]->JumpLeft_0 ==> p[k]->JumpLeft_0 < p[i]->JumpLeft_0
}

impl Instruction {
    /// The source character that this instruction is written as.
    pub open spec fn token(self) -> char {
        match self {
            Instruction::MoveLeft => '<',
            Instruction::MoveRight => '>',
            Instruction::Increment => '+',
            Instruction::Decrement => '-',
            Instruction::Write => '.',
            Instruction::Read => ',',
            Instruction::JumpLeft(_) => '[',
            Instruction::JumpRight(_) => ']',
        }
    }

    /// Whether `c` is one of the eight characters of the language.
    pub fn is_token(c: char) -> (r: bool)
        ensures
            r == is_token_char(c),
    {
        match c {
            '<' | '>' | '+' | '-' | '.' | ',' | '[' | ']' => true,
            _ => false,
        }
    }
}

/// Why a source text is not a program.
#[derive(Clone, Copy, Debug, PartialEq, Eq, Structural)]
pub enum ParseError {
    /// A token character without an instruction; the token set makes this unreachable.
    UnexpectedCharacter,
    /// A `]` without an open `[` before it, or a `[` that is never closed.
    UnbalancedBrackets,
}

impl ParseError {
    /// A human-readable description of the error.
    pub fn message(&self) -> (r: String)
        ensures
            r@ == match self {
                ParseError::UnexpectedCharacter => "encountered unexpected character during parse"@,
                ParseError::UnbalancedBrackets => "encountered unbalanced brackets during parse"@,
            },
    {
        match self {
            ParseError::UnexpectedCharacter => "encountered unexpected character during parse".to_owned(),
            ParseError::UnbalancedBrackets => "encountered unbalanced brackets during parse".to_owned(),
        }
    }
}

/// A program: instructions whose jump targets the parser resolved.
#[derive(Debug)]
pub struct Program(pub Vec<Instruction>);

impl Program {
    /// Parses source text: keeps the token characters, maps each to its instruction,
    /// and resolves every bracket to its partner.
    pub fn parse(s: &str) -> (r: Result<Program, ParseError>)
        ensures
            r is Ok <==> balanced(tokens(s@)),
            r is Err ==> r == Err::<Program, ParseError>(ParseError::UnbalancedBrackets),
            r matches Ok(prog) ==> tokens_of(prog.0@) == tokens(s@) && resolved(prog.0@),
    {
        let mut prog: Vec<Instruction> = Vec::new();
        let mut stack: Vec<usize> = Vec::new();
        let ghost pred = |c: char| is_token_char(c);
        let ghost all = tokens(s@);
        proof {
            reveal(partly_resolved);
        }
        for c in it: s.chars()
            invariant
                it.seq() == s@,
                all == tokens(s@),
                pred == (|c: char| is_token_char(c)),
                tokens_of(prog@) == tokens(s@.take(it.index() as int)),
                stack@.len() == depth(tokens(s@.take(it.index() as int))),
                forall|k: int|
                    0 <= k <= prog@.len() ==> depth(#[trigger] tokens_of(prog@).take(k)) >= 0,
                partly_resolved(prog@, stack@),
        {
            proof {
                lemma_tokens_step(s@, it.index() as int);
            }
            if Instruction::is_token(c) {
                let ghost t = tokens_of(prog@);
                proof {
                    lemma_depth_push(t, c);
                }
                let n = prog.len();
                let instr = match c {
                    '<' => Instruction::MoveLeft,
                    '>' => Instruction::MoveRight,
                    '+' => Instruction::Increment,
                    '-' => Instruction::Decrement,
                    '.' => Instruction::Write,
                    ',' => Instruction::Read,
                    '[' => {
                        proof {
                            lemma_open(prog@, stack@, n);
                        }
                        stack.push(n);
                        Instruction::JumpLeft(usize::MAX)
                    },
                    ']' => {
                        let ghost old_stack = stack@;
                        match stack.pop() {
                            Some(open) => {
                                proof {
                                    lemma_close(prog@, old_stack, n);
                                }
                                prog.set(open, Instruction::JumpLeft(n));
                                Instruction::JumpRight(open)
                            },
                            None => {
                                proof {
                                    assert(c == s@[it.index() as int]);
                                    lemma_negative_prefix(s@, it.index() as int + 1);
                                }
                                return Err(ParseError::UnbalancedBrackets);
                            },
                        }
                    },
                    _ => {
                        return Err(ParseError::UnexpectedCharacter);
                    },
                };
                proof {
                    if !(instr is JumpLeft) && !(instr is JumpRight) {
                        lemma_plain(prog@, stack@, instr);
                    }
                }
                prog.push(instr);
                proof {
                    assert(tokens_of(prog@) =~= t.push(c));
                    assert forall|k: int| 0 <= k <= prog@.len() implies depth(
                        #[trigger] tokens_of(prog@).take(k),
                    ) >= 0 by {
                        if k < prog@.len() {
                            assert(tokens_of(prog@).take(k) == t.take(k));
                        } else {
                            assert(tokens_of(prog@).take(k) == t.push(c));
                        }
                    }
                }
            }
        }
        proof {
            assert(s@.take(s@.len() as int) == s@);
        }
        if stack.len() > 0 {
            return Err(ParseError::UnbalancedBrackets);
        }
        proof {
            assert forall|k: int| 0 <= k <= all.len() implies depth(#[trigger] all.take(k)) >= 0 by {
                assert(all == tokens_of(prog@));
            }
            assert(stack@ == Seq::<usize>::empty());
        }
        let len = prog.len();
        proof {
            assert(prog@.len() == len);
            lemma_done(prog@);
        }
        Ok(Program(prog))
    }
}

impl std::str::FromStr for Program {
    type Err = ParseError;

    /// Parses source text as `Program::parse` does.
    fn from_str(s: &str) -> (r: Result<Program, ParseError>)
        ensures
            r is Ok <==> balanced(tokens(s@)),
            r is Err ==> r == Err::<Program, ParseError>(ParseError::UnbalancedBrackets),
            r matches Ok(prog) ==> tokens_of(prog.0@) == tokens(s@) && resolved(prog.0@),
    {
        Program::parse(s)
    }
}

/// Taking one more character extends the token string by that character, if it is one.
proof fn lemma_tokens_step(s: Seq<char>, i: int)
    requires
        0 <= i < s.len(),
    ensures
        tokens(s.take(i + 1)) == if is_token_char(s[i]) {
            tokens(s.take(i)).push(s[i])
        } else {
            tokens(s.take(i))
        },
{
    assert(s.take(i + 1) == s.take(i).push(s[i]));
    s.take(i).lemma_filter_push(s[i], |c: char| is_token_char(c));
}

/// Whether position `i` is among the open brackets on `st`.
pub open spec fn on_stack(st: Seq<usize>, i: int) -> bool {
    exists|a: int| 0 <= a < st.len() && #[trigger] st[a] == i
}

/// What the parser knows while it reads: the open brackets on `st` (in increasing
/// order) hold a placeholder target, and all other brackets are resolved as in `resolved`,
/// with no pair round a bracket that is still open.
#[verifier::opaque]
pub open spec fn partly_resolved(p: Seq<Instruction>, st: Seq<usize>) -> bool {
    &&& forall|a: int, b: int| 0 <= a < b < st.len() ==> #[trigger] st[a] < #[trigger] st[b]
    &&& forall|a: int|
        0 <= a < st.len() ==> #[trigger] st[a] < p.len() && p[st[a] as int] is JumpLeft
    &&& forall|i: int|
        #![trigger p[i]]
        0 <= i < p.len() && p[i] is JumpLeft && !on_stack(st, i) ==> {
            let j = p[i]->JumpLeft_0 as int;
            i < j < p.len() && p[j] == Instruction::JumpRight(i as usize)
        }
    &&& forall|j: int|
        #![trigger p[j]]
        0 <= j < p.len() && p[j] is JumpRight ==> {
            let i = p[j]->JumpRight_0 as int;
            0 <= i < j && p[i] == Instruction::JumpLeft(j as usize) && !on_stack(st, i)
        }
    &&& forall|i: int, k: int|
        0 <= i < k < p.len() && #[trigger] p[i] is JumpLeft && #[trigger] p[k] is JumpLeft
            && !on_stack(st, i) && k < p[i]->JumpLeft_0 ==> p[k]->JumpLeft_0 < p[i]->JumpLeft_0
            && !on_stack(st, k)
    &&& forall|i: int, a: int|
        0 <= i < p.len() && 0 <= a < st.len() && #[trigger] p[i] is JumpLeft && !on_stack(st, i)
            && i < #[trigger] st[a] ==> p[i]->JumpLeft_0 < st[a]
}

proof fn lemma_plain(p: Seq<Instruction>, st: Seq<usize>, x: Instruction)
    requires
        partly_resolved(p, st),
        !(x is JumpLeft),
        !(x is JumpRight),
    ensures
        partly_resolved(p.push(x), st),
{
    reveal(partly_resolved);
    let q = p.push(x);
    assert forall|i: int, k: int|
        0 <= i < k < q.len() && #[trigger] q[i] is JumpLeft && #[trigger] q[k] is JumpLeft
            && !on_stack(st, i) && k < q[i]->JumpLeft_0 implies q[k]->JumpLeft_0 < q[i]->JumpLeft_0
            && !on_stack(st, k) by {
        assert(q[i] == p[i]);
        assert(q[k] == p[k]);
    }
}

proof fn lemma_open(p: Seq<Instruction>, st: Seq<usize>, n: usize)
    requires
        partly_resolved(p, st),
        n == p.len(),
    ensures
        partly_resolved(p.push(Instruction::JumpLeft(usize::MAX)), st.push(n)),
{
    reveal(partly_resolved);
    let q = p.push(Instruction::JumpLeft(usize::MAX));
    let st2 = st.push(n);
    assert forall|i: int| 0 <= i < p.len() implies on_stack(st2, i) == on_stack(st, i) by {
        if on_stack(st, i) {
            let a = choose|a: int| 0 <= a < st.len() && #[trigger] st[a] == i;
            assert(st2[a] == i);
        }
        if on_stack(st2, i) {
            let a = choose|a: int| 0 <= a < st2.len() && #[trigger] st2[a] == i;
            assert(a < st.len());
            assert(st[a] == i);
        }
    }
    assert(on_stack(st2, n as int)) by {
        assert(st2[st.len() as int] == n);
    }
    assert forall|i: int|
        #![trigger q[i]]
        0 <= i < q.len() && q[i] is JumpLeft && !on_stack(st2, i) implies {
            let j = q[i]->JumpLeft_0 as int;
            i < j < q.len() && q[j] == Instruction::JumpRight(i as usize)
        } by {
        assert(q[i] == p[i]);
    }
    assert forall|j: int|
        #![trigger q[j]]
        0 <= j < q.len() && q[j] is JumpRight implies {
            let i = q[j]->JumpRight_0 as int;
            0 <= i < j && q[i] == Instruction::JumpLeft(j as usize) && !on_stack(st2, i)
        } by {
        assert(q[j] == p[j]);
    }
    assert forall|i: int, k: int|
        0 <= i < k < q.len() && #[trigger] q[i] is JumpLeft && #[trigger] q[k] is JumpLeft
            && !on_stack(st2, i) && k < q[i]->JumpLeft_0 implies q[k]->JumpLeft_0 < q[i]->JumpLeft_0
            && !on_stack(st2, k) by {
        assert(q[i] == p[i]);
        assert(k < n);
        assert(q[k] == p[k]);
    }
    assert forall|i: int, a: int|
        0 <= i < q.len() && 0 <= a < st2.len() && #[trigger] q[i] is JumpLeft && !on_stack(st2, i)
            && i < #[trigger] st2[a] implies q[i]->JumpLeft_0 < st2[a] by {
        assert(q[i] == p[i]);
        if a < st.len() {
            assert(st2[a] == st[a]);
        }
    }
}

proof fn lemma_close(p: Seq<Instruction>, st: Seq<usize>, n: usize)
    requires
        partly_resolved(p, st),
        st.len() > 0,
        n == p.len(),
    ensures
        st.last() < p.len(),
        p[st.last() as int] is JumpLeft,
        partly_resolved(
            p.update(st.last() as int, Instruction::JumpLeft(n)).push(
                Instruction::JumpRight(st.last()),
            ),
            st.drop_last(),
        ),
{
    reveal(partly_resolved);
    let o = st.last() as int;
    let q = p.update(o, Instruction::JumpLeft(n)).push(Instruction::JumpRight(o as usize));
    let st2 = st.drop_last();
    assert(0 <= o < n) by {
        assert(st[st.len() - 1] < p.len());
    }
    assert(on_stack(st, o)) by {
        assert(st[st.len() - 1] == o);
    }
    assert(!on_stack(st2, o)) by {
        if on_stack(st2, o) {
            let a = choose|a: int| 0 <= a < st2.len() && #[trigger] st2[a] == o;
            assert(st[a] < st[st.len() - 1]);
        }
    }
    assert forall|i: int| 0 <= i < p.len() && i != o implies on_stack(st2, i) == on_stack(st, i) by {
        if on_stack(st, i) {
            let a = choose|a: int| 0 <= a < st.len() && #[trigger] st[a] == i;
            assert(a != st.len() - 1);
            assert(st2[a] == i);
        }
        if on_stack(st2, i) {
            let a = choose|a: int| 0 <= a < st2.len() && #[trigger] st2[a] == i;
            assert(st[a] == i);
        }
    }
    assert forall|i: int| 0 <= i < p.len() && on_stack(st, i) implies i <= o by {
        let a = choose|a: int| 0 <= a < st.len() && #[trigger] st[a] == i;
        if a < st.len() - 1 {
            assert(st[a] < st[st.len() - 1]);
        }
    }
    assert forall|i: int|
        #![trigger q[i]]
        0 <= i < q.len() && q[i] is JumpLeft && !on_stack(st2, i) implies {
            let j = q[i]->JumpLeft_0 as int;
            i < j < q.len() && q[j] == Instruction::JumpRight(i as usize)
        } by {
        if i != o {
            assert(q[i] == p[i]);
        }
    }
    assert forall|j: int|
        #![trigger q[j]]
        0 <= j < q.len() && q[j] is JumpRight implies {
            let i = q[j]->JumpRight_0 as int;
            0 <= i < j && q[i] == Instruction::JumpLeft(j as usize) && !on_stack(st2, i)
        } by {
        if j < n {
            assert(q[j] == p[j]);
            let i = p[j]->JumpRight_0 as int;
            assert(i != o);
            assert(q[i] == p[i]);
        }
    }
    assert forall|i: int, k: int|
        0 <= i < k < q.len() && #[trigger] q[i] is JumpLeft && #[trigger] q[k] is JumpLeft
            && !on_stack(st2, i) && k < q[i]->JumpLeft_0 implies q[k]->JumpLeft_0 < q[i]->JumpLeft_0
            && !on_stack(st2, k) by {
        if i == o {
            assert(q[k] == p[k]);
            if on_stack(st, k) {
                assert(k <= o);
            }
        } else if k == o {
            assert(q[i] == p[i]);
            let a = st.len() - 1;
            assert(p[i]->JumpLeft_0 < st[a]);
        } else {
            assert(q[i] == p[i]);
            assert(q[k] == p[k]);
        }
    }
    assert forall|i: int, a: int|
        0 <= i < q.len() && 0 <= a < st2.len() && #[trigger] q[i] is JumpLeft && !on_stack(st2, i)
            && i < #[trigger] st2[a] implies q[i]->JumpLeft_0 < st2[a] by {
        assert(st2[a] == st[a]);
        assert(st[a] < st[st.len() - 1]);
        assert(i != o);
        assert(q[i] == p[i]);
    }
}

proof fn lemma_done(p: Seq<Instruction>)
    requires
        partly_resolved(p, Seq::empty()),
        p.len() <= usize::MAX,
    ensures
        resolved(p),
{
    reveal(partly_resolved);
}

/// One more character changes the depth by the bracket it is.
proof fn lemma_depth_push(t: Seq<char>, c: char)
    ensures
        depth(t.push(c)) == depth(t) + if c == '[' {
            1int
        } else if c == ']' {
            -1int
        } else {
            0int
        },
{
    assert(t.push(c).drop_last() == t);
}

/// A prefix of the text that closes more brackets than it opened makes the whole text unbalanced.
proof fn lemma_negative_prefix(s: Seq<char>, i: int)
    requires
        0 <= i <= s.len(),
        depth(tokens(s.take(i))) < 0,
    ensures
        !balanced(tokens(s)),
{
    let pred = |c: char| is_token_char(c);
    assert(s == s.take(i) + s.skip(i));
    Seq::filter_distributes_over_add(s.take(i), s.skip(i), pred);
    let t = tokens(s.take(i));
    assert(tokens(s).take(t.len() as int) == t);
}

} // verus!
