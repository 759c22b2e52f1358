use vstd::prelude::*;
use crate::token::Token;

verus! {

/// Binding strength of a token: `+` and `-` bind at 1, `*` and `/` at 2,
/// every other token at 0.
pub open spec fn precedence_of(t: Token) -> int {
    match t {
        Token::Plus | Token::Minus => 1,
        Token::Multiply | Token::Divide => 2,
        _ => 0,
    }
}

/// Moves tokens from the top of `stack` (its last element) to the end of
/// `output` while the top binds at least as strongly as `p`.
pub open spec fn pop_binding(stack: Seq<Token>, output: Seq<Token>, p: int) -> (Seq<Token>, Seq<Token>)
    decreases stack.len(),
{
    if stack.len() > 0 && precedence_of(stack.last()) >= p {
        pop_binding(stack.drop_last(), output.push(stack.last()), p)
    } else {
        (stack, output)
    }
}

/// Moves tokens from the top of `stack` to the end of `output` up to the
/// nearest `OpenContext`, which is dropped; empties the stack if there is none.
pub open spec fn pop_to_open(stack: Seq<Token>, output: Seq<Token>) -> (Seq<Token>, Seq<Token>)
    decreases stack.len(),
{
    if stack.len() == 0 {
        (stack, output)
    } else if stack.last() == Token::OpenContext {
        (stack.drop_last(), output)
    } else {
        pop_to_open(stack.drop_last(), output.push(stack.last()))
    }
}

/// Appends the whole stack to `output`, top first.
pub open spec fn flush(stack: Seq<Token>, output: Seq<Token>) -> Seq<Token>
    decreases stack.len(),
{
    if stack.len() == 0 {
        output
    } else {
        flush(stack.drop_last(), output.push(stack.last()))
    }
}

/// The operator stack and the output after one more infix token.
pub open spec fn shunt_step(t: Token, stack: Seq<Token>, output: Seq<Token>) -> (Seq<Token>, Seq<Token>) {
    match t {
        Token::Integer(_) | Token::Float(_) => (stack, output.push(t)),
        Token::Plus | Token::Minus | Token::Multiply | Token::Divide => {
            let (s, o) = pop_binding(stack, output, precedence_of(t));
            (s.push(t), o)
        },
        Token::OpenContext => (stack.push(t), output),
        Token::CloseContext => pop_to_open(stack, output),
        Token::Error => (stack, output),
    }
}

/// The output once `input` has been read from the given state and the stack
/// flushed.
pub open spec fn shunt(input: Seq<Token>, stack: Seq<Token>, output: Seq<Token>) -> Seq<Token>
    decreases input.len(),
{
    if input.len() == 0 {
        flush(stack, output)
    } else {
        let (s, o) = shunt_step(input[0], stack, output);
        shunt(input.drop_first(), s, o)
    }
}

/// The postfix form of an infix token sequence.
pub open spec fn postfix_of(input: Seq<Token>) -> Seq<Token> {
    shunt(input, Seq::empty(), Seq::empty())
}

/// Binding strength of a token (see `precedence_of`).
pub fn precedence(token: Token) -> (r: i32)
    ensures
        r == precedence_of(token),
{
    match token {
        Token::Plus | Token::Minus => 1,
        Token::Multiply | Token::Divide => 2,
        _ => 0,
    }
}

/// Pops tokens binding at least as strongly as `p` onto `output`.
fn pop_binding_exec(stack: &mut Vec<Token>, output: &mut Vec<Token>, p: i32)
    ensures
        (final(stack)@, final(output)@) == pop_binding(old(stack)@, old(output)@, p as int),
{
    loop
        invariant_except_break
            pop_binding(old(stack)@, old(output)@, p as int) == pop_binding(stack@, output@, p as int),
        ensures
            pop_binding(old(stack)@, old(output)@, p as int) == (stack@, output@),
        decreases stack.len(),
    {
        if stack.len() == 0 {
            break;
        }
        let top = stack[stack.len() - 1];
        if precedence(top) >= p {
            let t = stack.pop().unwrap();
            output.push(t);
        } else {
            break;
        }
    }
}

/// Pops tokens onto `output` up to and including the nearest `OpenContext`.
fn pop_to_open_exec(stack: &mut Vec<Token>, output: &mut Vec<Token>)
    ensures
        (final(stack)@, final(output)@) == pop_to_open(old(stack)@, old(output)@),
{
    loop
        invariant_except_break
            pop_to_open(old(stack)@, old(output)@) == pop_to_open(stack@, output@),
        ensures
            pop_to_open(old(stack)@, old(output)@) == (stack@, output@),
        decreases stack.len(),
    {
        if stack.len() == 0 {
            break;
        }
        let t = stack.pop().unwrap();
        if t == Token::OpenContext {
            break;
        }
        output.push(t);
    }
}

/// Converts an infix token sequence to postfix order with the shunting-yard
/// algorithm.
///
/// Equal precedence pops the stacked operator first, so operators of one
/// precedence associate to the left. `Err` tokens are skipped; an unmatched
/// `CloseContext` empties the stack, and an unmatched `OpenContext` is
/// flushed to the output at the end.
pub fn shunting_yard(input_tokens: &Vec<Token>) -> (r: Vec<Token>)
    ensures
        r@ == postfix_of(input_tokens@),
{
    let mut stack: Vec<Token> = Vec::new();
    let mut output: Vec<Token> = Vec::new();
    let n = input_tokens.len();
    let mut i: usize = 0;
    proof {
        assert(input_tokens@.skip(0) =~= input_tokens@);
    }
    while i < n
        invariant
            n == input_tokens@.len(),
            i <= n,
            postfix_of(input_tokens@) == shunt(input_tokens@.skip(i as int), stack@, output@),
        decreases n - i,
    {
        let token = input_tokens[i];
        proof {
            assert(input_tokens@.skip(i as int)[0] == token);
            assert(input_tokens@.skip(i as int).drop_first() =~= input_tokens@.skip(i + 1));
        }
        match token {
            Token::Integer(_) | Token::Float(_) => {
                output.push(token);
            },
            Token::Plus | Token::Minus | Token::Multiply | Token::Divide => {
                pop_binding_exec(&mut stack, &mut output, precedence(token));
                stack.push(token);
            },
            Token::OpenContext => {
                stack.push(token);
            },
            Token::CloseContext => {
                pop_to_open_exec(&mut stack, &mut output);
            },
            Token::Error => {},
        }
        i = i + 1;
    }
    while stack.len() > 0
        invariant
            postfix_of(input_tokens@) == flush(stack@, output@),
        decreases stack.len(),
    {
        let t = stack.pop().unwrap();
        output.push(t);
    }
    proof {
        assert(input_tokens@.skip(n as int) =~= Seq::<Token>::empty());
    }
    output
}

} // verus!
