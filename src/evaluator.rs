use crate::parser::Expr;
use crate::tokenizer::Symbol;
use vstd::prelude::*;

verus! {

/// Why an expression tree has no value.
#[derive(Debug, Clone, PartialEq)]
pub struct EvaluationError {
    pub message: String,
}

impl EvaluationError {
    pub fn text(&self) -> (r: String)
        ensures
            r@ == self.message@,
    {
        self.message.clone()
    }
}

pub open spec fn digit_chars() -> Seq<char> {
    "0123456789"@
}

/// The decimal writing of `n`, without leading zeros.
pub open spec fn decimal(n: nat) -> Seq<char>
    decreases n,
{
    if n < 10 {
        seq![digit_chars()[n as int]]
    } else {
        decimal(n / 10).push(digit_chars()[(n % 10) as int])
    }
}

/// The decimal writing of `n`.
pub fn decimal_text(n: u32) -> (r: String)
    ensures
        r@ == decimal(n as nat),
    decreases n,
{
    let digits = "0123456789";
    proof {
        reveal_strlit("0123456789");
    }
    let d = (n % 10) as usize;
    let last = digits.substring_char(d, d + 1);
    if n < 10 {
        proof {
            assert(last@ == seq![digit_chars()[n as int]]);
        }
        last.to_string()
    } else {
        let head = decimal_text(n / 10);
        proof {
            assert(last@ == seq![digit_chars()[(n % 10) as int]]);
        }
        head.concat(last)
    }
}

pub open spec fn division_message(a: u32) -> Seq<char> {
    "Divided "@ + decimal(a as nat) + " by 0"@
}

pub open spec fn underflow_message(a: u32, b: u32) -> Seq<char> {
    "Subtracted "@ + decimal(b as nat) + " from "@ + decimal(a as nat) + " below 0"@
}

pub open spec fn sum_overflow_message(a: u32, b: u32) -> Seq<char> {
    "Added "@ + decimal(a as nat) + " and "@ + decimal(b as nat) + " beyond u32"@
}

pub open spec fn product_overflow_message(a: u32, b: u32) -> Seq<char> {
    "Multiplied "@ + decimal(a as nat) + " by "@ + decimal(b as nat) + " beyond u32"@
}

/// An operator applied to two values. Division truncates; a division by
/// zero, a difference below zero and a sum or product beyond `u32` are
/// errors.
pub open spec fn apply(a: u32, op: Symbol, b: u32) -> Result<u32, Seq<char>> {
    match op {
        Symbol::Plus => if a + b <= u32::MAX {
            Ok((a + b) as u32)
        } else {
            Err(sum_overflow_message(a, b))
        },
        Symbol::Minus => if a >= b {
            Ok((a - b) as u32)
        } else {
            Err(underflow_message(a, b))
        },
        Symbol::Multiply => if a * b <= u32::MAX {
            Ok((a * b) as u32)
        } else {
            Err(product_overflow_message(a, b))
        },
        Symbol::Divide => if b != 0 {
            Ok(a / b)
        } else {
            Err(division_message(a))
        },
    }
}

/// The value of an expression tree, or the message of the first error met
/// when the left subtree is reduced before the right one.
pub open spec fn evaluation(e: Expr) -> Result<u32, Seq<char>>
    decreases e,
{
    match e {
        Expr::Integer(n) => Ok(n),
        Expr::Expression(l, op, r) => match evaluation(*l) {
            Err(m) => Err(m),
            Ok(a) => match evaluation(*r) {
                Err(m) => Err(m),
                Ok(b) => apply(a, op, b),
            },
        },
    }
}

/// What `evaluate` returns for `e`.
pub open spec fn evaluates_to(e: Expr, r: Result<u32, EvaluationError>) -> bool {
    match r {
        Ok(v) => evaluation(e) == Ok::<u32, Seq<char>>(v),
        Err(x) => evaluation(e) == Err::<u32, Seq<char>>(x.message@),
    }
}

fn fail(message: String) -> (r: Result<u32, EvaluationError>)
    ensures
        r matches Err(x) && x.message@ == message@,
{
    Err(EvaluationError { message })
}

/// Reduces an expression tree to its value, left subtree first.
pub fn evaluate(expr: Expr) -> (r: Result<u32, EvaluationError>)
    ensures
        evaluates_to(expr, r),
    decreases expr,
{
    match expr {
        Expr::Expression(left, op, right) => {
            let a = match evaluate(*left) {
                Ok(a) => a,
                Err(x) => {
                    return Err(x);
                },
            };
            let b = match evaluate(*right) {
                Ok(b) => b,
                Err(x) => {
                    return Err(x);
                },
            };
            match op {
                Symbol::Plus => {
                    if a <= u32::MAX - b {
                        Ok(a + b)
                    } else {
                        let m = "Added ".to_string().concat(decimal_text(a).as_str());
                        let m = m.concat(" and ").concat(decimal_text(b).as_str());
                        fail(m.concat(" beyond u32"))
                    }
                },
                Symbol::Minus => {
                    if a >= b {
                        Ok(a - b)
                    } else {
                        let m = "Subtracted ".to_string().concat(decimal_text(b).as_str());
                        let m = m.concat(" from ").concat(decimal_text(a).as_str());
                        fail(m.concat(" below 0"))
                    }
                },
                Symbol::Multiply => {
                    match a.checked_mul(b) {
                        Some(v) => Ok(v),
                        None => {
                            let m = "Multiplied ".to_string().concat(decimal_text(a).as_str());
                            let m = m.concat(" by ").concat(decimal_text(b).as_str());
                            fail(m.concat(" beyond u32"))
                        },
                    }
                },
                Symbol::Divide => {
                    if b != 0 {
                        Ok(a / b)
                    } else {
                        let m = "Divided ".to_string().concat(decimal_text(a).as_str());
                        fail(m.concat(" by 0"))
                    }
                },
            }
        },
        Expr::Integer(num) => Ok(num),
    }
}

/// Evaluation depends on the tree alone: two evaluations of one tree give
/// the same value or the same error.
pub proof fn lemma_evaluate_deterministic(
    e: Expr,
    r1: Result<u32, EvaluationError>,
    r2: Result<u32, EvaluationError>,
)
    requires
        evaluates_to(e, r1),
        evaluates_to(e, r2),
    ensures
        r1 is Ok <==> r2 is Ok,
        r1 is Ok ==> r1->Ok_0 == r2->Ok_0,
        r1 is Err ==> r1->Err_0.message@ == r2->Err_0.message@,
{
}

} // verus!
