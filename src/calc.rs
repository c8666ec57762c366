use vstd::prelude::*;
use crate::literal::{is_float_literal, is_float_text, is_mantissa, is_number};
use crate::text::{decimal, push_decimal, split_words, words};

verus! {

/// A binary operation.
#[derive(Clone, Copy, Debug, PartialEq, Eq, Structural)]
pub enum Op {
    Add,
    Sub,
    Mul,
    Div,
}

/// The character that writes `op`.
pub open spec fn symbol(op: Op) -> char {
    match op {
        Op::Add => '+',
        Op::Sub => '-',
        Op::Mul => '*',
        Op::Div => '/',
    }
}

/// The operation that a token names, if any.
pub open spec fn op_of(t: Seq<char>) -> Option<Op> {
    if t == seq!['+'] {
        Some(Op::Add)
    } else if t == seq!['-'] {
        Some(Op::Sub)
    } else if t == seq!['*'] {
        Some(Op::Mul)
    } else if t == seq!['/'] {
        Some(Op::Div)
    } else {
        None
    }
}

impl Op {
    /// The operation that `token` names: `+`, `-`, `*` or `/`.
    pub fn parse(token: &str) -> (r: Option<Op>)
        ensures
            r == op_of(token@),
    {
        if token.unicode_len() != 1 {
            return None;
        }
        let c = token.get_char(0);
        assert(token@ =~= seq![c]);
        if c == '+' {
            Some(Op::Add)
        } else if c == '-' {
            Some(Op::Sub)
        } else if c == '*' {
            Some(Op::Mul)
        } else if c == '/' {
            Some(Op::Div)
        } else {
            None
        }
    }

    fn symbol_str(&self) -> (r: &'static str)
        ensures
            r@ == seq![symbol(*self)],
    {
        proof {
            reveal_strlit("+");
            reveal_strlit("-");
            reveal_strlit("*");
            reveal_strlit("/");
        }
        match self {
            Op::Add => "+",
            Op::Sub => "-",
            Op::Mul => "*",
            Op::Div => "/",
        }
    }

    /// The operation's symbol.
    pub fn to_string(&self) -> (r: String)
        ensures
            r@ == seq![symbol(*self)],
    {
        String::from_str(self.symbol_str())
    }
}

/// The text of a floating-point number, as it was written.
#[derive(Debug)]
pub struct Literal {
    text: String,
}

impl View for Literal {
    type V = Seq<char>;

    closed spec fn view(&self) -> Seq<char> {
        self.text@
    }
}

impl Literal {
    #[verifier::type_invariant]
    spec fn inv(&self) -> bool {
        is_float_literal(self.text@)
    }

    /// The literal that `token` writes, if it writes a floating-point number.
    pub fn parse(token: &str) -> (r: Option<Literal>)
        ensures
            r is Some <==> is_float_literal(token@),
            r matches Some(l) ==> l@ == token@,
    {
        if is_float_text(token) {
            Some(Literal { text: String::from_str(token) })
        } else {
            None
        }
    }

    pub fn text(&self) -> (r: &str)
        ensures
            r@ == self@,
            is_float_literal(r@),
    {
        proof {
            use_type_invariant(self);
        }
        self.text.as_str()
    }
}

/// An expression tree, as the contracts see it.
pub enum Tree {
    Leaf(Seq<char>),
    Node(Box<Tree>, Op, Box<Tree>),
}

/// An expression tree.
#[derive(Debug)]
pub enum Expr {
    Num(Literal),
    Bin(Box<Expr>, Op, Box<Expr>),
}

pub open spec fn tree_of(e: Expr) -> Tree
    decreases e,
{
    match e {
        Expr::Num(l) => Tree::Leaf(l@),
        Expr::Bin(a, op, b) => Tree::Node(Box::new(tree_of(*a)), op, Box::new(tree_of(*b))),
    }
}

impl View for Expr {
    type V = Tree;

    open spec fn view(&self) -> Tree {
        tree_of(*self)
    }
}

/// The fully parenthesised infix text of `t`.
pub open spec fn infix(t: Tree) -> Seq<char>
    decreases t,
{
    match t {
        Tree::Leaf(s) => s,
        Tree::Node(a, op, b) => seq!['('] + infix(*a) + seq![' ', symbol(op), ' '] + infix(*b)
            + seq![')'],
    }
}

impl Expr {
    pub fn infix_string(&self) -> (r: String)
        ensures
            r@ == infix(self@),
        decreases self,
    {
        match self {
            Expr::Num(l) => String::from_str(l.text()),
            Expr::Bin(a, op, b) => {
                proof {
                    reveal_strlit("(");
                    reveal_strlit(" ");
                    reveal_strlit(")");
                }
                let left = a.infix_string();
                let right = b.infix_string();
                let mut s = String::from_str("(");
                s.append(left.as_str());
                s.append(" ");
                s.append(op.symbol_str());
                s.append(" ");
                s.append(right.as_str());
                s.append(")");
                assert(s@ =~= infix(self@));
                s
            },
        }
    }
}


/// The stack after one operator token: its two top entries, right operand on
/// top, joined under `op`.
pub open spec fn combine(stack: Seq<Tree>, op: Op) -> Seq<Tree>
    recommends
        stack.len() >= 2,
{
    stack.take(stack.len() - 2).push(
        Tree::Node(Box::new(stack[stack.len() - 2]), op, Box::new(stack.last())),
    )
}

/// Runs the postfix stack machine over `tokens` from `stack`: the final
/// stack, or the depth of the stack at the first token that cannot be taken.
pub open spec fn reduce(tokens: Seq<Seq<char>>, stack: Seq<Tree>) -> Result<Seq<Tree>, nat>
    decreases tokens.len(),
{
    if tokens.len() == 0 {
        Ok(stack)
    } else {
        let t = tokens[0];
        if is_float_literal(t) {
            reduce(tokens.drop_first(), stack.push(Tree::Leaf(t)))
        } else if op_of(t) is Some && stack.len() >= 2 {
            reduce(tokens.drop_first(), combine(stack, op_of(t)->0))
        } else {
            Err(stack.len())
        }
    }
}

/// The tree that a sequence of postfix tokens denotes, or the stack depth
/// that the parse fails with.
pub open spec fn parse_tokens(tokens: Seq<Seq<char>>) -> Result<Tree, nat> {
    match reduce(tokens, seq![]) {
        Ok(st) => if st.len() == 1 {
            Ok(st[0])
        } else {
            Err(st.len())
        },
        Err(n) => Err(n),
    }
}

/// The tree that a line of whitespace-separated postfix tokens denotes, or
/// the stack depth that the parse fails with.
pub open spec fn parse_line(s: Seq<char>) -> Result<Tree, nat> {
    parse_tokens(words(s))
}

pub open spec fn trees(v: Seq<Expr>) -> Seq<Tree> {
    v.map_values(|e: Expr| e@)
}

/// The line that failed to parse, and how many entries were left on the
/// stack when it failed.
#[derive(Debug)]
pub struct ExprParseError {
    source: String,
    remaining: usize,
}

impl View for ExprParseError {
    type V = (Seq<char>, nat);

    closed spec fn view(&self) -> (Seq<char>, nat) {
        (self.source@, self.remaining as nat)
    }
}

impl ExprParseError {
    fn from(source: &str, stack: Vec<Expr>) -> (r: ExprParseError)
        ensures
            r@ == (source@, stack@.len()),
    {
        ExprParseError { source: String::from_str(source), remaining: stack.len() }
    }

    /// The line that failed to parse.
    pub fn source(&self) -> (r: &str)
        ensures
            r@ == self@.0,
    {
        self.source.as_str()
    }

    /// The number of entries left on the stack when the parse failed.
    pub fn remaining(&self) -> (r: usize)
        ensures
            r == self@.1,
    {
        self.remaining
    }
}

impl Expr {
    /// Parses a line of whitespace-separated postfix tokens into a tree.
    pub fn parse(source: &str) -> (r: Result<Expr, ExprParseError>)
        ensures
            match parse_line(source@) {
                Ok(t) => r matches Ok(e) && e@ == t,
                Err(n) => r matches Err(err) && err@ == (source@, n),
            },
    {
        let tokens = split_words(source);
        let ghost toks = words(source@);
        let mut stack: Vec<Expr> = Vec::new();
        let mut i: usize = 0;
        assert(toks.skip(0) =~= toks);
        assert(trees(stack@) =~= seq![]);
        while i < tokens.len()
            invariant
                tokens@.map_values(|w: String| w@) == toks,
                toks == words(source@),
                i <= tokens@.len(),
                reduce(toks, seq![]) == reduce(toks.skip(i as int), trees(stack@)),
            decreases tokens.len() - i,
        {
            let token = tokens[i].as_str();
            let ghost rest = toks.skip(i as int);
            let ghost before = trees(stack@);
            assert(rest[0] == toks[i as int]);
            assert(toks[i as int] == token@);
            assert(rest.drop_first() =~= toks.skip(i + 1));
            match Literal::parse(token) {
                Some(num) => {
                    stack.push(Expr::Num(num));
                    assert(trees(stack@) =~= before.push(Tree::Leaf(token@)));
                },
                None => match Op::parse(token) {
                    Some(op) => {
                        if stack.len() < 2 {
                            return Err(ExprParseError::from(source, stack));
                        }
                        let rhs = stack.pop().unwrap();
                        let lhs = stack.pop().unwrap();
                        stack.push(Expr::Bin(Box::new(lhs), op, Box::new(rhs)));
                        assert(trees(stack@) =~= combine(before, op));
                    },
                    None => {
                        return Err(ExprParseError::from(source, stack));
                    },
                },
            }
            i = i + 1;
        }
        assert(toks.skip(i as int) =~= Seq::<Seq<char>>::empty());
        if stack.len() == 1 {
            let e = stack.pop().unwrap();
            Ok(e)
        } else {
            Err(ExprParseError::from(source, stack))
        }
    }
}


/// The text that reports a failed parse of `source` with `remaining`
/// entries left on the stack.
pub open spec fn error_text(source: Seq<char>, remaining: nat) -> Seq<char> {
    "Parsing failed for expression '"@ + source + "': "@ + decimal(remaining)
        + " token(s) left on the stack."@
}

impl ExprParseError {
    /// The report of this failure.
    pub fn message(&self) -> (r: String)
        ensures
            r@ == error_text(self@.0, self@.1),
    {
        let mut s = String::from_str("Parsing failed for expression '");
        s.append(self.source.as_str());
        s.append("': ");
        push_decimal(&mut s, self.remaining);
        s.append(" token(s) left on the stack.");
        s
    }
}


/// The postfix tokens that write `t`: operands first, left before right,
/// then the operator.
pub open spec fn postfix(t: Tree) -> Seq<Seq<char>>
    decreases t,
{
    match t {
        Tree::Leaf(s) => seq![s],
        Tree::Node(a, op, b) => postfix(*a) + postfix(*b) + seq![seq![symbol(op)]],
    }
}

/// Every leaf of `t` is the text of a floating-point number.
pub open spec fn well_formed(t: Tree) -> bool
    decreases t,
{
    match t {
        Tree::Leaf(s) => is_float_literal(s),
        Tree::Node(a, _, b) => well_formed(*a) && well_formed(*b),
    }
}

proof fn lemma_symbol_token(op: Op)
    ensures
        !is_float_literal(seq![symbol(op)]),
        op_of(seq![symbol(op)]) == Some(op),
{
    let s = seq![symbol(op)];
    assert(s.take(0) =~= Seq::<char>::empty());
    assert(s.skip(1) =~= Seq::<char>::empty());
    assert(!(s[0] == 'e' || s[0] == 'E'));
    assert(!is_number(s)) by {
        assert(!is_mantissa(s.take(0)));
    }
    assert(!crate::literal::is_special(s));
}

proof fn lemma_reduce_postfix(t: Tree, rest: Seq<Seq<char>>, stack: Seq<Tree>)
    requires
        well_formed(t),
    ensures
        reduce(postfix(t) + rest, stack) == reduce(rest, stack.push(t)),
    decreases t,
{
    match t {
        Tree::Leaf(s) => {
            assert((seq![s] + rest).drop_first() =~= rest);
        },
        Tree::Node(a, op, b) => {
            let tail = seq![seq![symbol(op)]] + rest;
            assert(postfix(t) + rest =~= postfix(*a) + (postfix(*b) + tail));
            lemma_reduce_postfix(*a, postfix(*b) + tail, stack);
            lemma_reduce_postfix(*b, tail, stack.push(*a));
            lemma_symbol_token(op);
            assert(tail.drop_first() =~= rest);
            assert(combine(stack.push(*a).push(*b), op) =~= stack.push(t));
        },
    }
}

/// A line whose tokens are the postfix form of a well-formed tree parses to
/// exactly that tree.
pub proof fn lemma_parse_postfix(s: Seq<char>, t: Tree)
    requires
        well_formed(t),
        words(s) == postfix(t),
    ensures
        parse_line(s) == Ok::<Tree, nat>(t),
{
    lemma_reduce_postfix(t, seq![], seq![]);
    assert(postfix(t) + seq![] =~= postfix(t));
    assert(seq![].push(t) =~= seq![t]);
}


/// The postfix tokens of the entries of `st`, bottom first.
pub open spec fn postfix_all(st: Seq<Tree>) -> Seq<Seq<char>>
    decreases st.len(),
{
    if st.len() == 0 {
        seq![]
    } else {
        postfix_all(st.drop_last()) + postfix(st.last())
    }
}

pub open spec fn all_well_formed(st: Seq<Tree>) -> bool {
    forall|i: int| 0 <= i < st.len() ==> well_formed(#[trigger] st[i])
}

proof fn lemma_reduce_tokens(tokens: Seq<Seq<char>>, stack: Seq<Tree>)
    requires
        all_well_formed(stack),
        reduce(tokens, stack) is Ok,
    ensures
        all_well_formed(reduce(tokens, stack)->Ok_0),
        postfix_all(reduce(tokens, stack)->Ok_0) == postfix_all(stack) + tokens,
    decreases tokens.len(),
{
    if tokens.len() == 0 {
        assert(postfix_all(stack) + tokens =~= postfix_all(stack));
    } else {
        let t = tokens[0];
        let rest = tokens.drop_first();
        assert(seq![t] + rest =~= tokens);
        if is_float_literal(t) {
            let next = stack.push(Tree::Leaf(t));
            assert(next.drop_last() =~= stack);
            assert(all_well_formed(next)) by {
                assert forall|i: int| 0 <= i < next.len() implies well_formed(#[trigger] next[i]) by {
                    if i < stack.len() {
                        assert(next[i] == stack[i]);
                    }
                }
            }
            lemma_reduce_tokens(rest, next);
            assert(postfix_all(stack) + seq![t] + rest =~= postfix_all(stack) + tokens);
        } else {
            let op = op_of(t)->0;
            let n = stack.len();
            let a = stack[n - 2];
            let b = stack[n - 1];
            let below = stack.take(n - 2);
            let next = combine(stack, op);
            assert(t == seq![symbol(op)]);
            assert(next.drop_last() =~= below);
            assert(stack.drop_last().drop_last() =~= below);
            assert(stack.drop_last().last() == a);
            assert(well_formed(a) && well_formed(b));
            assert(all_well_formed(next)) by {
                assert forall|i: int| 0 <= i < next.len() implies well_formed(#[trigger] next[i]) by {
                    if i < below.len() {
                        assert(next[i] == stack[i]);
                    }
                }
            }
            lemma_reduce_tokens(rest, next);
            assert(postfix_all(next) =~= postfix_all(below) + postfix(a) + postfix(b) + seq![t]);
            assert(n >= 2);
            assert(stack.last() == b);
            assert(postfix_all(stack) == postfix_all(stack.drop_last()) + postfix(b));
            assert(postfix_all(stack.drop_last()) == postfix_all(below) + postfix(a));
            assert(postfix_all(stack) =~= postfix_all(below) + postfix(a) + postfix(b));
            assert(postfix_all(next) + rest =~= postfix_all(stack) + tokens);
        }
    }
}

/// A line parses to a tree only if the tree is well formed and the line's
/// tokens are exactly its postfix form.
pub proof fn lemma_parse_is_postfix(s: Seq<char>, t: Tree)
    requires
        parse_line(s) == Ok::<Tree, nat>(t),
    ensures
        well_formed(t),
        words(s) == postfix(t),
{
    let empty = Seq::<Tree>::empty();
    lemma_reduce_tokens(words(s), empty);
    let st = reduce(words(s), empty)->Ok_0;
    assert(st.drop_last() =~= empty);
    assert(postfix_all(empty) + words(s) =~= words(s));
    assert(postfix_all(empty) + postfix(t) =~= postfix(t));
}

} // verus!
