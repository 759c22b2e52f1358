use vstd::prelude::*;
use crate::token::Token;
use crate::parser::{fragment_token, trimmed, trim_start, trim_end};
use crate::converter::{postfix_of, shunt, shunt_step, pop_binding, pop_to_open, flush, precedence_of};
use crate::evaluator::{Evaluate, postfix_value, eval_stack, eval_step, operator_of, Expr, Operator};

verus! {

/// The one-character spelling of an operator or grouping token.
pub open spec fn spelling(t: Token) -> Seq<char> {
    match t {
        Token::Plus => seq!['+'],
        Token::Minus => seq!['-'],
        Token::Multiply => seq!['*'],
        Token::Divide => seq!['/'],
        Token::OpenContext => seq!['('],
        Token::CloseContext => seq![')'],
        _ => Seq::empty(),
    }
}

/// Tokenizing is a function of the fragment alone: the same fragment, read
/// as the same number, gives the same token every time.
pub proof fn lemma_tokenize_deterministic(a: Seq<char>, b: Seq<char>, number: Option<u64>)
    requires
        a == b,
    ensures
        fragment_token(a, number) == fragment_token(b, number),
{
}

/// The spelling of an operator or grouping token tokenizes back to that
/// token, whatever the fragment would read as as a number.
pub proof fn lemma_symbol_round_trip(t: Token, number: Option<u64>)
    requires
        t.is_operator() || t == Token::OpenContext || t == Token::CloseContext,
    ensures
        fragment_token(spelling(t), number) == t,
{
    let s = spelling(t);
    assert(s.len() == 1);
    assert(trim_start(s) == s);
    assert(trim_end(s) == s);
    assert(trimmed(s) == s);
}

/// The leaf expression of a number token.
pub open spec fn leaf(t: Token) -> Expr {
    match t {
        Token::Integer(n) => Expr::Integer(n),
        Token::Float(b) => Expr::Float(b),
        _ => Expr::Integer(0),
    }
}

/// Converting `a op b` to postfix and evaluating it gives `op` applied to
/// `a` and `b`.
pub proof fn lemma_one_operation(a: Token, op: Token, b: Token)
    requires
        a.is_number(),
        b.is_number(),
        op.is_operator(),
    ensures
        postfix_of(seq![a, op, b]) == seq![a, b, op],
        postfix_value(postfix_of(seq![a, op, b])) == Ok::<Expr, crate::evaluator::EvalError>(op.combined(leaf(a), leaf(b))),
{
    let input = seq![a, op, b];
    reveal_with_fuel(shunt, 4);
    reveal_with_fuel(flush, 2);
    reveal_with_fuel(pop_binding, 2);
    assert(input.drop_first() =~= seq![op, b]);
    assert(input.drop_first().drop_first() =~= seq![b]);
    assert(input.drop_first().drop_first().drop_first() =~= Seq::<Token>::empty());
    let e: Seq<Token> = Seq::empty();
    assert(e.push(a).push(b).push(op) =~= seq![a, b, op]);
    let post = seq![a, b, op];
    reveal_with_fuel(eval_stack, 4);
    assert(post.drop_first() =~= seq![b, op]);
    assert(post.drop_first().drop_first() =~= seq![op]);
    assert(post.drop_first().drop_first().drop_first() =~= Seq::<Token>::empty());
    let s: Seq<Expr> = Seq::empty();
    assert(s.push(leaf(a)).push(leaf(b)).drop_last().drop_last() =~= s);
}

/// Converting `a op1 b op2 c` to postfix and evaluating it groups by
/// precedence, and operators of equal precedence group to the left:
/// `(a op1 b) op2 c` unless `op2` binds more strongly than `op1`, in which
/// case `a op1 (b op2 c)`.
#[verifier::rlimit(50)]
pub proof fn lemma_two_operations(a: Token, op1: Token, b: Token, op2: Token, c: Token)
    requires
        a.is_number(),
        b.is_number(),
        c.is_number(),
        op1.is_operator(),
        op2.is_operator(),
    ensures
        postfix_value(postfix_of(seq![a, op1, b, op2, c])) == if precedence_of(op1) >= precedence_of(op2) {
            Ok::<Expr, crate::evaluator::EvalError>(op2.combined(op1.combined(leaf(a), leaf(b)), leaf(c)))
        } else {
            Ok::<Expr, crate::evaluator::EvalError>(op1.combined(leaf(a), op2.combined(leaf(b), leaf(c))))
        },
{
    let input = seq![a, op1, b, op2, c];
    reveal_with_fuel(shunt, 6);
    reveal_with_fuel(flush, 3);
    reveal_with_fuel(pop_binding, 3);
    reveal_with_fuel(eval_stack, 6);
    assert(input.drop_first() =~= seq![op1, b, op2, c]);
    assert(input.drop_first().drop_first() =~= seq![b, op2, c]);
    assert(input.drop_first().drop_first().drop_first() =~= seq![op2, c]);
    assert(input.drop_first().drop_first().drop_first().drop_first() =~= seq![c]);
    assert(seq![c].drop_first() =~= Seq::<Token>::empty());
    let e: Seq<Token> = Seq::empty();
    let x: Seq<Expr> = Seq::empty();
    let la = leaf(a);
    let lb = leaf(b);
    let lc = leaf(c);
    if precedence_of(op1) >= precedence_of(op2) {
        let post = seq![a, b, op1, c, op2];
        assert(e.push(op1).drop_last() =~= e);
        assert(e.push(a).push(b).push(op1).push(c).push(op2) =~= post);
        assert(postfix_of(input) == post);
        assert(post.drop_first() =~= seq![b, op1, c, op2]);
        assert(post.drop_first().drop_first() =~= seq![op1, c, op2]);
        assert(seq![op1, c, op2].drop_first() =~= seq![c, op2]);
        assert(seq![c, op2].drop_first() =~= seq![op2]);
        assert(seq![op2].drop_first() =~= Seq::<Token>::empty());
        let ab = op1.combined(la, lb);
        assert(x.push(la).push(lb).drop_last().drop_last() =~= x);
        assert(x.push(ab).push(lc).drop_last().drop_last() =~= x);
    } else {
        let post = seq![a, b, c, op2, op1];
        assert(e.push(op1).push(op2).drop_last() =~= e.push(op1));
        assert(e.push(a).push(b).push(c).push(op2).push(op1) =~= post);
        assert(postfix_of(input) == post);
        assert(post.drop_first() =~= seq![b, c, op2, op1]);
        assert(post.drop_first().drop_first() =~= seq![c, op2, op1]);
        assert(seq![c, op2, op1].drop_first() =~= seq![op2, op1]);
        assert(seq![op2, op1].drop_first() =~= seq![op1]);
        assert(seq![op1].drop_first() =~= Seq::<Token>::empty());
        let bc = op2.combined(lb, lc);
        assert(x.push(la).push(lb).push(lc).drop_last().drop_last() =~= x.push(la));
        assert(x.push(la).push(bc).drop_last().drop_last() =~= x);
    }
}

/// The token of an operation.
pub open spec fn operator_token(op: Operator) -> Token {
    match op {
        Operator::Plus => Token::Plus,
        Operator::Minus => Token::Minus,
        Operator::Multiply => Token::Multiply,
        Operator::Divide => Token::Divide,
    }
}

/// An expression written in infix form, each operation in its own pair of
/// grouping tokens.
pub open spec fn infix_of(e: Expr) -> Seq<Token>
    decreases e,
{
    match e {
        Expr::Integer(n) => seq![Token::Integer(n)],
        Expr::Float(b) => seq![Token::Float(b)],
        Expr::Binary(op, l, r) => seq![Token::OpenContext] + infix_of(*l) + seq![operator_token(op)]
            + infix_of(*r) + seq![Token::CloseContext],
    }
}

/// An expression written in postfix form.
pub open spec fn postfix_tokens_of(e: Expr) -> Seq<Token>
    decreases e,
{
    match e {
        Expr::Integer(n) => seq![Token::Integer(n)],
        Expr::Float(b) => seq![Token::Float(b)],
        Expr::Binary(op, l, r) => postfix_tokens_of(*l) + postfix_tokens_of(*r) + seq![operator_token(op)],
    }
}

/// The operator stack and the output once `input` has been read, before the
/// final flush.
pub open spec fn shunt_run(input: Seq<Token>, stack: Seq<Token>, output: Seq<Token>) -> (Seq<Token>, Seq<Token>)
    decreases input.len(),
{
    if input.len() == 0 {
        (stack, output)
    } else {
        let (s, o) = shunt_step(input[0], stack, output);
        shunt_run(input.drop_first(), s, o)
    }
}

proof fn lemma_shunt_is_run_then_flush(input: Seq<Token>, stack: Seq<Token>, output: Seq<Token>)
    ensures
        shunt(input, stack, output) == flush(shunt_run(input, stack, output).0, shunt_run(input, stack, output).1),
    decreases input.len(),
{
    if input.len() > 0 {
        let (s, o) = shunt_step(input[0], stack, output);
        lemma_shunt_is_run_then_flush(input.drop_first(), s, o);
    }
}

proof fn lemma_run_concat(x: Seq<Token>, y: Seq<Token>, stack: Seq<Token>, output: Seq<Token>)
    ensures
        shunt_run(x + y, stack, output) == shunt_run(y, shunt_run(x, stack, output).0, shunt_run(x, stack, output).1),
    decreases x.len(),
{
    if x.len() == 0 {
        assert(x + y =~= y);
    } else {
        assert((x + y)[0] == x[0]);
        assert((x + y).drop_first() =~= x.drop_first() + y);
        let (s, o) = shunt_step(x[0], stack, output);
        lemma_run_concat(x.drop_first(), y, s, o);
    }
}

proof fn lemma_run_single(t: Token, stack: Seq<Token>, output: Seq<Token>)
    ensures
        shunt_run(seq![t], stack, output) == shunt_step(t, stack, output),
{
    assert(seq![t].drop_first() =~= Seq::<Token>::empty());
    reveal_with_fuel(shunt_run, 2);
}

proof fn lemma_run_infix(e: Expr, stack: Seq<Token>, output: Seq<Token>)
    ensures
        shunt_run(infix_of(e), stack, output) == (stack, output + postfix_tokens_of(e)),
    decreases e,
{
    match e {
        Expr::Integer(n) => {
            lemma_run_single(Token::Integer(n), stack, output);
            assert(output.push(Token::Integer(n)) =~= output + postfix_tokens_of(e));
        },
        Expr::Float(b) => {
            lemma_run_single(Token::Float(b), stack, output);
            assert(output.push(Token::Float(b)) =~= output + postfix_tokens_of(e));
        },
        Expr::Binary(op, l, r) => {
            let t = operator_token(op);
            let open = seq![Token::OpenContext];
            let close = seq![Token::CloseContext];
            let il = infix_of(*l);
            let ir = infix_of(*r);
            let pl = postfix_tokens_of(*l);
            let pr = postfix_tokens_of(*r);
            let s1 = stack.push(Token::OpenContext);
            let s2 = s1.push(t);
            lemma_run_concat(open + il + seq![t] + ir, close, stack, output);
            lemma_run_concat(open + il + seq![t], ir, stack, output);
            lemma_run_concat(open + il, seq![t], stack, output);
            lemma_run_concat(open, il, stack, output);
            lemma_run_single(Token::OpenContext, stack, output);
            lemma_run_infix(*l, s1, output);
            lemma_run_single(t, s1, output + pl);
            reveal_with_fuel(pop_binding, 2);
            assert(pop_binding(s1, output + pl, precedence_of(t)) == (s1, output + pl));
            lemma_run_infix(*r, s2, output + pl);
            lemma_run_single(Token::CloseContext, s2, output + pl + pr);
            reveal_with_fuel(pop_to_open, 3);
            assert(s2.drop_last() =~= s1);
            assert(s1.drop_last() =~= stack);
            assert((output + pl + pr).push(t) =~= output + postfix_tokens_of(e));
        },
    }
}

proof fn lemma_eval_concat(x: Seq<Token>, y: Seq<Token>, stack: Seq<Expr>)
    ensures
        eval_stack(x + y, stack) == match eval_stack(x, stack) {
            None => None,
            Some(s) => eval_stack(y, s),
        },
    decreases x.len(),
{
    if x.len() == 0 {
        assert(x + y =~= y);
    } else {
        assert((x + y)[0] == x[0]);
        assert((x + y).drop_first() =~= x.drop_first() + y);
        match eval_step(x[0], stack) {
            None => {},
            Some(s) => {
                lemma_eval_concat(x.drop_first(), y, s);
            },
        }
    }
}

proof fn lemma_eval_single(t: Token, stack: Seq<Expr>)
    ensures
        eval_stack(seq![t], stack) == eval_step(t, stack),
{
    assert(seq![t].drop_first() =~= Seq::<Token>::empty());
    reveal_with_fuel(eval_stack, 2);
}

proof fn lemma_eval_postfix(e: Expr, stack: Seq<Expr>)
    ensures
        eval_stack(postfix_tokens_of(e), stack) == Some(stack.push(e)),
    decreases e,
{
    match e {
        Expr::Integer(n) => {
            lemma_eval_single(Token::Integer(n), stack);
        },
        Expr::Float(b) => {
            lemma_eval_single(Token::Float(b), stack);
        },
        Expr::Binary(op, l, r) => {
            let t = operator_token(op);
            let pl = postfix_tokens_of(*l);
            let pr = postfix_tokens_of(*r);
            lemma_eval_concat(pl + pr, seq![t], stack);
            lemma_eval_concat(pl, pr, stack);
            lemma_eval_postfix(*l, stack);
            lemma_eval_postfix(*r, stack.push(*l));
            lemma_eval_single(t, stack.push(*l).push(*r));
            assert(operator_of(t) == op);
            assert(stack.push(*l).push(*r).drop_last().drop_last() =~= stack);
        },
    }
}

/// Converting any expression, written in infix form with each operation
/// grouped, to postfix and evaluating the result gives back that expression.
pub proof fn lemma_infix_round_trip(e: Expr)
    ensures
        postfix_of(infix_of(e)) == postfix_tokens_of(e),
        postfix_value(postfix_of(infix_of(e))) == Ok::<Expr, crate::evaluator::EvalError>(e),
{
    let empty: Seq<Token> = Seq::empty();
    lemma_shunt_is_run_then_flush(infix_of(e), empty, empty);
    lemma_run_infix(e, empty, empty);
    assert(empty + postfix_tokens_of(e) =~= postfix_tokens_of(e));
    let x: Seq<Expr> = Seq::empty();
    lemma_eval_postfix(e, x);
}

} // verus!
