use crate::tokenizer::{alternates, precedence, Symbol, Token};
use vstd::prelude::*;

verus! {

/// Why a token sequence could not be turned into an expression.
#[derive(Debug, Clone, PartialEq)]
pub struct ParserError {
    pub message: String,
}

impl ParserError {
    pub fn text(&self) -> (r: String)
        ensures
            r@ == self.message@,
    {
        self.message.clone()
    }
}

/// An expression tree: a literal, or an operator over two owned subtrees.
#[derive(Debug, PartialEq)]
pub enum Expr {
    Integer(u32),
    Expression(Box<Expr>, Symbol, Box<Expr>),
}

impl Expr {
    /// The tokens that write this expression, left to right.
    pub fn tokens(&self) -> (r: Vec<Token>)
        ensures
            r@ == flatten(*self),
        decreases self,
    {
        match self {
            Expr::Integer(n) => vec![Token::Integer(*n)],
            Expr::Expression(l, op, r) => {
                let mut v = l.tokens();
                v.push(Token::Operator(*op));
                let mut w = r.tokens();
                v.append(&mut w);
                v
            },
        }
    }
}

/// The tokens that write an expression, read left to right.
pub open spec fn flatten(e: Expr) -> Seq<Token>
    decreases e,
{
    match e {
        Expr::Integer(n) => seq![Token::Integer(n)],
        Expr::Expression(l, op, r) => flatten(*l) + seq![Token::Operator(op)] + flatten(*r),
    }
}

/// Replaces the two topmost operands by the operator applied to them.
pub open spec fn reduce(operands: Seq<Expr>, op: Symbol) -> Seq<Expr> {
    let n = operands.len() as int;
    operands.subrange(0, n - 2).push(
        Expr::Expression(Box::new(operands[n - 2]), op, Box::new(operands[n - 1])),
    )
}

/// One step of the parser on a token, over the operand stack and the
/// operator stack. An operator of strictly lower precedence than the one on
/// top of the operator stack first reduces that one operator; any other
/// operator is pushed at once.
pub open spec fn shift(st: (Seq<Expr>, Seq<Symbol>), t: Token) -> (Seq<Expr>, Seq<Symbol>) {
    match t {
        Token::Integer(n) => (st.0.push(Expr::Integer(n)), st.1),
        Token::Operator(op) => if st.1.len() > 0 && precedence(op) < precedence(st.1.last()) {
            (reduce(st.0, st.1.last()), st.1.drop_last().push(op))
        } else {
            (st.0, st.1.push(op))
        },
    }
}

/// The two stacks after the parser has read `ts`.
pub open spec fn scan(ts: Seq<Token>) -> (Seq<Expr>, Seq<Symbol>)
    decreases ts.len(),
{
    if ts.len() == 0 {
        (Seq::empty(), Seq::empty())
    } else {
        shift(scan(ts.drop_last()), ts.last())
    }
}

/// The operand stack once every pending operator, topmost first, is reduced.
pub open spec fn drain(operands: Seq<Expr>, operators: Seq<Symbol>) -> Seq<Expr>
    decreases operators.len(),
{
    if operators.len() == 0 {
        operands
    } else {
        drain(reduce(operands, operators.last()), operators.drop_last())
    }
}

/// The tree that the parser builds from well-formed tokens.
pub open spec fn parse_tree(ts: Seq<Token>) -> Expr {
    let st = scan(ts);
    drain(st.0, st.1).last()
}

pub open spec fn no_expression_message() -> Seq<char> {
    "No expression left at end of parsing"@
}

pub open spec fn malformed_message() -> Seq<char> {
    "Integers and operators do not alternate"@
}

/// The outcome of parsing `ts`: its tree when well formed, else the error
/// message.
pub open spec fn parse_outcome(ts: Seq<Token>) -> Result<Expr, Seq<char>> {
    if alternates(ts) {
        Ok(parse_tree(ts))
    } else if ts.len() == 0 {
        Err(no_expression_message())
    } else {
        Err(malformed_message())
    }
}

/// The tokens that the two stacks stand for: each operand and each pending
/// operator in the order in which they were read.
pub open spec fn layout(operands: Seq<Expr>, operators: Seq<Symbol>) -> Seq<Token>
    decreases operands.len() + operators.len(),
{
    if operands.len() == 0 && operators.len() == 0 {
        Seq::empty()
    } else if operands.len() > operators.len() {
        layout(operands.drop_last(), operators) + flatten(operands.last())
    } else {
        layout(operands, operators.drop_last()) + seq![Token::Operator(operators.last())]
    }
}

proof fn lemma_layout_reduce(operands: Seq<Expr>, operators: Seq<Symbol>)
    requires
        operators.len() >= 1,
        operands.len() == operators.len() + 1,
    ensures
        layout(reduce(operands, operators.last()), operators.drop_last()) == layout(
            operands,
            operators,
        ),
{
    let n = operands.len() as int;
    let op = operators.last();
    let reduced = reduce(operands, op);
    let rest = operands.subrange(0, n - 2);
    let a = operands[n - 2];
    let b = operands[n - 1];
    assert(reduced.drop_last() == rest);
    assert(operands.drop_last().drop_last() == rest);
    assert(operands.drop_last().last() == a);
    let base = layout(rest, operators.drop_last());
    assert(layout(operands.drop_last(), operators.drop_last()) == base + flatten(a));
    assert(layout(operands.drop_last(), operators) == base + flatten(a) + seq![
        Token::Operator(op),
    ]);
    assert(base + (flatten(a) + seq![Token::Operator(op)] + flatten(b)) == base + flatten(a)
        + seq![Token::Operator(op)] + flatten(b));
}

proof fn lemma_layout_drain(operands: Seq<Expr>, operators: Seq<Symbol>)
    requires
        operands.len() == operators.len() + 1,
    ensures
        drain(operands, operators).len() == 1,
        layout(drain(operands, operators), Seq::empty()) == layout(operands, operators),
    decreases operators.len(),
{
    if operators.len() > 0 {
        lemma_layout_reduce(operands, operators);
        lemma_layout_drain(reduce(operands, operators.last()), operators.drop_last());
        assert(drain(operands, operators) == drain(
            reduce(operands, operators.last()),
            operators.drop_last(),
        ));
    } else {
        assert(operators == Seq::<Symbol>::empty());
    }
}

/// Reading well-formed tokens leaves stacks that stand for those tokens.
proof fn lemma_layout_scan(ts: Seq<Token>)
    requires
        forall|j: int| 0 <= j < ts.len() ==> ((#[trigger] ts[j] is Integer) <==> j % 2 == 0),
    ensures
        layout(scan(ts).0, scan(ts).1) == ts,
        scan(ts).0.len() == scan(ts).1.len() + ts.len() % 2,
    decreases ts.len(),
{
    if ts.len() > 0 {
        let prev = ts.drop_last();
        assert forall|j: int| 0 <= j < prev.len() implies ((#[trigger] prev[j] is Integer) <==> j
            % 2 == 0) by {
            assert(prev[j] == ts[j]);
        }
        lemma_layout_scan(prev);
        let st = scan(prev);
        match ts.last() {
            Token::Integer(n) => {
                assert(st.0.push(Expr::Integer(n)).drop_last() == st.0);
            },
            Token::Operator(op) => {
                if st.1.len() > 0 && precedence(op) < precedence(st.1.last()) {
                    lemma_layout_reduce(st.0, st.1);
                    assert(st.1.drop_last().push(op).drop_last() == st.1.drop_last());
                } else {
                    assert(st.1.push(op).drop_last() == st.1);
                }
            },
        }
        assert(prev + seq![ts.last()] == ts);
    }
}

/// The tree parsed from well-formed tokens writes exactly those tokens.
pub proof fn lemma_parse_tree_flatten(ts: Seq<Token>)
    requires
        alternates(ts),
    ensures
        flatten(parse_tree(ts)) == ts,
{
    lemma_layout_scan(ts);
    let st = scan(ts);
    lemma_layout_drain(st.0, st.1);
    let d = drain(st.0, st.1);
    assert(d.drop_last().len() == 0);
    assert(layout(d, Seq::empty()) == layout(d.drop_last(), Seq::empty()) + flatten(d.last()));
    assert(Seq::<Token>::empty() + flatten(d.last()) == flatten(d.last()));
}

/// Writing a parsed tree back as tokens and parsing those again gives the
/// same tree.
pub proof fn lemma_parse_round_trip(ts: Seq<Token>, e: Expr)
    requires
        parse_outcome(ts) == Ok::<Expr, Seq<char>>(e),
    ensures
        flatten(e) == ts,
        parse_outcome(flatten(e)) == Ok::<Expr, Seq<char>>(e),
{
    lemma_parse_tree_flatten(ts);
}

/// An operator-precedence parser over a sequence of tokens.
pub struct Parser {
    tokens: Vec<Token>,
}

impl View for Parser {
    type V = Seq<Token>;

    closed spec fn view(&self) -> Seq<Token> {
        self.tokens@
    }
}

impl Parser {
    pub fn new(tokens: Vec<Token>) -> (r: Self)
        ensures
            r@ == tokens@,
    {
        Parser { tokens: tokens }
    }

    /// Builds the expression tree with an operand stack and an operator
    /// stack in one pass over the tokens.
    pub fn parse(&self) -> (r: Result<Expr, ParserError>)
        ensures
            match r {
                Ok(e) => parse_outcome(self@) == Ok::<Expr, Seq<char>>(e),
                Err(x) => parse_outcome(self@) == Err::<Expr, Seq<char>>(x.message@),
            },
    {
        let ghost ts = self.tokens@;
        let n = self.tokens.len();
        let mut waiting_stack: Vec<Expr> = Vec::new();
        let mut operator_stack: Vec<Symbol> = Vec::new();
        if n == 0 {
            return Err(ParserError { message: no_expression_text() });
        }
        let mut i: usize = 0;
        while i < n
            invariant
                n == ts.len(),
                ts == self.tokens@,
                i <= n,
                forall|j: int| 0 <= j < i ==> ((#[trigger] ts[j] is Integer) <==> j % 2 == 0),
                (waiting_stack@, operator_stack@) == scan(ts.subrange(0, i as int)),
                waiting_stack@.len() == operator_stack@.len() + i % 2,
            decreases n - i,
        {
            let token = self.tokens[i];
            proof {
                assert(ts.subrange(0, i + 1).drop_last() == ts.subrange(0, i as int));
            }
            match token {
                Token::Integer(num) => {
                    if i % 2 == 1 {
                        return Err(ParserError { message: malformed_text() });
                    }
                    waiting_stack.push(Expr::Integer(num));
                },
                Token::Operator(op) => {
                    if i % 2 == 0 {
                        return Err(ParserError { message: malformed_text() });
                    }
                    if operator_stack.len() > 0 && op < operator_stack[operator_stack.len() - 1] {
                        let ghost before = waiting_stack@;
                        let right = waiting_stack.pop().unwrap();
                        let left = waiting_stack.pop().unwrap();
                        let higher_op = operator_stack.pop().unwrap();
                        waiting_stack.push(Expr::Expression(Box::new(left), higher_op, Box::new(right)));
                        proof {
                            assert(waiting_stack@ == reduce(before, higher_op));
                        }
                    }
                    operator_stack.push(op);
                },
            }
            i = i + 1;
        }
        if n % 2 == 0 {
            return Err(ParserError { message: malformed_text() });
        }
        proof {
            assert(ts.subrange(0, n as int) == ts);
        }
        while operator_stack.len() > 0
            invariant
                waiting_stack@.len() == operator_stack@.len() + 1,
                drain(waiting_stack@, operator_stack@) == drain(scan(ts).0, scan(ts).1),
            decreases operator_stack@.len(),
        {
            let ghost before = waiting_stack@;
            let op = operator_stack.pop().unwrap();
            let right = waiting_stack.pop().unwrap();
            let left = waiting_stack.pop().unwrap();
            waiting_stack.push(Expr::Expression(Box::new(left), op, Box::new(right)));
            proof {
                assert(waiting_stack@ == reduce(before, op));
            }
        }
        let e = waiting_stack.pop().unwrap();
        Ok(e)
    }
}

fn no_expression_text() -> (r: String)
    ensures
        r@ == no_expression_message(),
{
    "No expression left at end of parsing".to_string()
}

fn malformed_text() -> (r: String)
    ensures
        r@ == malformed_message(),
{
    "Integers and operators do not alternate".to_string()
}

} // verus!
