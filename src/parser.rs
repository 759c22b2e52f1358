use vstd::prelude::*;
use vstd::arithmetic::power2::{pow2, lemma_pow2_pos, lemma_pow2_unfold, lemma_pow2_strictly_increases, lemma2_to64, lemma2_to64_rest};
use vstd::arithmetic::div_mod::lemma_small_mod;
use crate::token::Token;

verus! {

/// The characters of Unicode's `White_Space` property.
pub open spec fn is_white_space(c: char) -> bool {
    ('\u{9}' <= c && c <= '\u{d}') || c == ' ' || c == '\u{85}' || c == '\u{a0}'
        || c == '\u{1680}' || ('\u{2000}' <= c && c <= '\u{200a}') || c == '\u{2028}'
        || c == '\u{2029}' || c == '\u{202f}' || c == '\u{205f}' || c == '\u{3000}'
}

/// `s` without its leading white space.
pub open spec fn trim_start(s: Seq<char>) -> Seq<char>
    decreases s.len(),
{
    if s.len() > 0 && is_white_space(s[0]) {
        trim_start(s.drop_first())
    } else {
        s
    }
}

/// `s` without its trailing white space.
pub open spec fn trim_end(s: Seq<char>) -> Seq<char>
    decreases s.len(),
{
    if s.len() > 0 && is_white_space(s.last()) {
        trim_end(s.drop_last())
    } else {
        s
    }
}

/// `s` without leading and trailing white space.
pub open spec fn trimmed(s: Seq<char>) -> Seq<char> {
    trim_end(trim_start(s))
}

/// Relies on `str::trim`: the slice without leading and trailing characters
/// of Unicode's `White_Space` property.
#[verifier::external_body]
fn trim_str(s: &str) -> (r: &str)
    ensures
        r@ == trimmed(s@),
{
    s.trim()
}

/// The operator or grouping token that a trimmed fragment spells, if any.
pub open spec fn symbol_token(s: Seq<char>) -> Option<Token> {
    if s.len() != 1 {
        None
    } else if s[0] == '+' {
        Some(Token::Plus)
    } else if s[0] == '-' {
        Some(Token::Minus)
    } else if s[0] == '*' {
        Some(Token::Multiply)
    } else if s[0] == '/' {
        Some(Token::Divide)
    } else if s[0] == '(' || s[0] == '[' || s[0] == '{' {
        Some(Token::OpenContext)
    } else if s[0] == ')' || s[0] == ']' || s[0] == '}' {
        Some(Token::CloseContext)
    } else {
        None
    }
}

/// The biased exponent field of a double's bit pattern.
pub open spec fn exponent_field(bits: u64) -> int {
    (bits as int / pow2(52) as int) % 2048
}

/// The fraction field of a double's bit pattern.
pub open spec fn fraction_field(bits: u64) -> int {
    bits as int % pow2(52) as int
}

/// Whether a double's sign bit is set.
pub open spec fn sign_negative(bits: u64) -> bool {
    bits as int >= pow2(63)
}

/// The significand of a finite double, as a whole number.
pub open spec fn significand(bits: u64) -> int {
    if exponent_field(bits) == 0 {
        fraction_field(bits)
    } else {
        fraction_field(bits) + pow2(52)
    }
}

/// The power of two that scales the significand of a finite double.
pub open spec fn scale(bits: u64) -> int {
    if exponent_field(bits) == 0 {
        1 - 1075
    } else {
        exponent_field(bits) - 1075
    }
}

/// The magnitude of the double with bit pattern `bits` when that double is
/// finite and has no fractional part; `None` otherwise (a fraction, an
/// infinity or NaN).
pub open spec fn whole_magnitude(bits: u64) -> Option<int> {
    let m = significand(bits);
    let e = scale(bits);
    if exponent_field(bits) == 2047 {
        None
    } else if e >= 0 {
        Some(m * pow2(e as nat))
    } else if m % pow2((-e) as nat) as int == 0 {
        Some(m / pow2((-e) as nat) as int)
    } else {
        None
    }
}

/// `x` clamped to the range of `i32`.
pub open spec fn saturate_i32(x: int) -> i32 {
    if x > i32::MAX {
        i32::MAX
    } else if x < i32::MIN {
        i32::MIN
    } else {
        x as i32
    }
}

/// The token of a number read as the double with bit pattern `bits`: a
/// whole number becomes `Integer`, clamped to the range of `i32`; any other
/// value stays `Float`.
pub open spec fn number_token(bits: u64) -> Token {
    match whole_magnitude(bits) {
        Some(q) => Token::Integer(saturate_i32(if sign_negative(bits) { -q } else { q })),
        None => Token::Float(bits),
    }
}

/// The token of a fragment, given the fragment and the bit pattern of the
/// double it reads as (`None` when it is not a number).
pub open spec fn fragment_token(s: Seq<char>, number: Option<u64>) -> Token {
    match symbol_token(trimmed(s)) {
        Some(t) => t,
        None => match number {
            Some(bits) => number_token(bits),
            None => Token::Error,
        },
    }
}

/// The token of a number read as the double with bit pattern `bits`.
pub fn number_to_token(bits: u64) -> (r: Token)
    ensures
        r == number_token(bits),
{
    proof {
        lemma2_to64();
        lemma2_to64_rest();
    }
    let two52: u64 = 0x10_0000_0000_0000;
    let e: u64 = (bits / two52) % 2048;
    let f: u64 = bits % two52;
    let negative = bits >= 0x8000_0000_0000_0000;
    if e == 2047 {
        return Token::Float(bits);
    }
    if e == 0 {
        proof {
            lemma_pow2_strictly_increases(52, 1074);
            lemma_small_mod(f as nat, pow2(1074));
        }
        if f == 0 {
            return Token::Integer(0);
        }
        return Token::Float(bits);
    }
    let m: u64 = f + two52;
    if e >= 1075 {
        proof {
            let p = pow2((e - 1075) as nat);
            lemma_pow2_pos((e - 1075) as nat);
            assert(m * p >= m) by (nonlinear_arith)
                requires
                    p >= 1,
                    m >= 0,
            ;
        }
        return Token::Integer(if negative { i32::MIN } else { i32::MAX });
    }
    if e < 1023 {
        proof {
            let k = (1075 - e) as nat;
            if k > 53 {
                lemma_pow2_strictly_increases(53, k);
            }
            lemma_small_mod(m as nat, pow2(k));
        }
        return Token::Float(bits);
    }
    let k: u64 = 1075 - e;
    let mut p: u64 = 1;
    let mut j: u64 = 0;
    while j < k
        invariant
            k <= 52,
            j <= k,
            p == pow2(j as nat),
            pow2(52) == 0x10_0000_0000_0000,
        decreases k - j,
    {
        proof {
            lemma_pow2_unfold((j + 1) as nat);
            lemma_pow2_strictly_increases((j + 1) as nat, 53);
            if j + 1 < 52 {
                lemma_pow2_strictly_increases((j + 1) as nat, 52);
            }
        }
        p = p * 2;
        j = j + 1;
    }
    if m % p != 0 {
        return Token::Float(bits);
    }
    let q: u64 = m / p;
    if negative {
        if q > 0x8000_0000 {
            Token::Integer(i32::MIN)
        } else {
            Token::Integer((0 - (q as i64)) as i32)
        }
    } else {
        if q > 0x7fff_ffff {
            Token::Integer(i32::MAX)
        } else {
            Token::Integer(q as i32)
        }
    }
}

/// The token of one text fragment.
///
/// White space around the fragment is ignored. `+ - * /` give the operators,
/// `( [ {` give `OpenContext` and `) ] }` give `CloseContext`. Any other
/// fragment is a number: `number` carries the bit pattern of the double the
/// trimmed fragment reads as (see `number_to_token`), or `None` when it does
/// not read as one, which gives `Error`.
pub fn parse_token(input: String, number: Option<u64>) -> (r: Token)
    ensures
        r == fragment_token(input@, number),
{
    let t = trim_str(input.as_str());
    if t.unicode_len() == 1 {
        let c = t.get_char(0);
        if c == '+' {
            return Token::Plus;
        } else if c == '-' {
            return Token::Minus;
        } else if c == '*' {
            return Token::Multiply;
        } else if c == '/' {
            return Token::Divide;
        } else if c == '(' || c == '[' || c == '{' {
            return Token::OpenContext;
        } else if c == ')' || c == ']' || c == '}' {
            return Token::CloseContext;
        }
    }
    match number {
        Some(bits) => number_to_token(bits),
        None => Token::Error,
    }
}

/// The tokens of a sequence of fragments, one for each, in order;
/// `numbers[i]` is what `input[i]` reads as (see `parse_token`).
pub fn parse_all_tokens(input: Vec<String>, numbers: Vec<Option<u64>>) -> (r: Vec<Token>)
    requires
        input@.len() == numbers@.len(),
    ensures
        r@.len() == input@.len(),
        forall|i: int| 0 <= i < input@.len() ==> r@[i] == fragment_token(#[trigger] input@[i]@, numbers@[i]),
{
    let mut tokens: Vec<Token> = Vec::new();
    let mut i: usize = 0;
    while i < input.len()
        invariant
            input@.len() == numbers@.len(),
            i <= input@.len(),
            tokens@.len() == i,
            forall|j: int| 0 <= j < i ==> tokens@[j] == fragment_token(#[trigger] input@[j]@, numbers@[j]),
        decreases input@.len() - i,
    {
        let t = parse_token(input[i].clone(), numbers[i]);
        tokens.push(t);
        i = i + 1;
    }
    tokens
}

} // verus!
