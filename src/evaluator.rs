use vstd::prelude::*;
use crate::token::Token;

verus! {

/// The four binary operations.
#[derive(Clone, Copy, Debug, PartialEq, Eq, Structural)]
pub enum Operator {
    Plus,
    Minus,
    Multiply,
    Divide,
}

/// The expression that a postfix sequence denotes. Its leaves are the
/// numbers of the sequence (`Float` as IEEE-754 bits); an inner node applies
/// an operator to a left and a right operand.
#[derive(Debug, PartialEq)]
pub enum Expr {
    Integer(i32),
    Float(u64),
    Binary(Operator, Box<Expr>, Box<Expr>),
}

/// Why a postfix sequence has no single value.
#[derive(Clone, Copy, Debug, PartialEq, Eq, Structural)]
pub enum EvalError {
    /// An operator found fewer than two operands, or nothing was left at the end.
    StackUnderflow,
    /// More than one value was left at the end.
    MalformedResult,
}

/// Combining two operands by a token.
pub trait Evaluate<T>: Sized {
    /// Whether the token combines operands at all.
    spec fn combines(self) -> bool;

    /// What combining `a` and `b` gives.
    spec fn combined(self, a: T, b: T) -> T;

    fn evaluate(self, a: T, b: T) -> (r: T)
        requires
            self.combines(),
        ensures
            r == self.combined(a, b),
    ;
}

/// The operation of an operator token.
pub open spec fn operator_of(t: Token) -> Operator
    recommends
        t.is_operator(),
{
    match t {
        Token::Plus => Operator::Plus,
        Token::Minus => Operator::Minus,
        Token::Multiply => Operator::Multiply,
        _ => Operator::Divide,
    }
}

impl Evaluate<Expr> for Token {
    open spec fn combines(self) -> bool {
        self.is_operator()
    }

    open spec fn combined(self, a: Expr, b: Expr) -> Expr {
        Expr::Binary(operator_of(self), Box::new(a), Box::new(b))
    }

    /// The expression `a op b` for an operator token `op`.
    fn evaluate(self, a: Expr, b: Expr) -> (r: Expr) {
        let op = match self {
            Token::Plus => Operator::Plus,
            Token::Minus => Operator::Minus,
            Token::Multiply => Operator::Multiply,
            _ => Operator::Divide,
        };
        Expr::Binary(op, Box::new(a), Box::new(b))
    }
}

/// The value stack after one more postfix token; `None` when an operator
/// finds fewer than two operands. Tokens that are neither numbers nor
/// operators leave the stack as it is.
pub open spec fn eval_step(t: Token, stack: Seq<Expr>) -> Option<Seq<Expr>> {
    match t {
        Token::Integer(n) => Some(stack.push(Expr::Integer(n))),
        Token::Float(b) => Some(stack.push(Expr::Float(b))),
        Token::Plus | Token::Minus | Token::Multiply | Token::Divide => {
            if stack.len() < 2 {
                None
            } else {
                let a = stack[stack.len() - 2];
                let b = stack[stack.len() - 1];
                Some(stack.drop_last().drop_last().push(t.combined(a, b)))
            }
        },
        _ => Some(stack),
    }
}

/// The value stack once `input` has been read from `stack`; `None` on an
/// operator short of operands.
pub open spec fn eval_stack(input: Seq<Token>, stack: Seq<Expr>) -> Option<Seq<Expr>>
    decreases input.len(),
{
    if input.len() == 0 {
        Some(stack)
    } else {
        match eval_step(input[0], stack) {
            None => None,
            Some(s) => eval_stack(input.drop_first(), s),
        }
    }
}

/// The expression a postfix sequence denotes: the single value left on the
/// stack, `StackUnderflow` when an operator lacks operands or nothing is left,
/// `MalformedResult` when more than one value is left.
pub open spec fn postfix_value(input: Seq<Token>) -> Result<Expr, EvalError> {
    match eval_stack(input, Seq::empty()) {
        None => Err(EvalError::StackUnderflow),
        Some(s) => if s.len() == 0 {
            Err(EvalError::StackUnderflow)
        } else if s.len() > 1 {
            Err(EvalError::MalformedResult)
        } else {
            Ok(s[0])
        },
    }
}

/// Evaluates a postfix token sequence on a value stack, giving the
/// expression it denotes.
pub fn postfix_evaluation(input_tokens: &Vec<Token>) -> (r: Result<Expr, EvalError>)
    ensures
        r == postfix_value(input_tokens@),
{
    let mut stack: Vec<Expr> = Vec::new();
    let n = input_tokens.len();
    let mut i: usize = 0;
    proof {
        assert(input_tokens@.skip(0) =~= input_tokens@);
    }
    while i < n
        invariant
            n == input_tokens@.len(),
            i <= n,
            eval_stack(input_tokens@, Seq::empty()) == eval_stack(input_tokens@.skip(i as int), stack@),
        decreases n - i,
    {
        let token = input_tokens[i];
        proof {
            assert(input_tokens@.skip(i as int)[0] == token);
            assert(input_tokens@.skip(i as int).drop_first() =~= input_tokens@.skip(i + 1));
        }
        match token {
            Token::Integer(num) => {
                stack.push(Expr::Integer(num));
            },
            Token::Float(bits) => {
                stack.push(Expr::Float(bits));
            },
            Token::Plus | Token::Minus | Token::Multiply | Token::Divide => {
                if stack.len() < 2 {
                    return Err(EvalError::StackUnderflow);
                }
                let ghost s0 = stack@;
                let b = stack.pop().unwrap();
                let a = stack.pop().unwrap();
                proof {
                    assert(a == s0[s0.len() - 2]);
                    assert(stack@ == s0.drop_last().drop_last());
                }
                stack.push(token.evaluate(a, b));
            },
            _ => {},
        }
        i = i + 1;
    }
    proof {
        assert(input_tokens@.skip(n as int) =~= Seq::<Token>::empty());
    }
    if stack.len() == 0 {
        Err(EvalError::StackUnderflow)
    } else if stack.len() > 1 {
        Err(EvalError::MalformedResult)
    } else {
        Ok(stack.pop().unwrap())
    }
}

} // verus!
