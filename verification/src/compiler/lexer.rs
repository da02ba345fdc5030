//! Tokenizer and parser for purell source.
//!
//! Differences from the interpreter's lexer:
//!   * a token made entirely of digits is an integer literal, not an identifier
//!   * `-` immediately followed by a digit (no space) is a negative literal
//!   * runs of operator characters lex as identifiers, so `+`, `<=`, `/=` are
//!     ordinary names that happen to resolve to primitives
use vstd::prelude::*;

use crate::compiler::ast::{Expr, ExprV};
use crate::text::{
    append_str, chars_of, digits_value, int_text, is_alpha, is_alpha_char, is_digit,
    is_digit_char, is_space_char, is_whitespace, push_char, push_int_text, string_from_range,
    string_of,
};

verus! {

/// A token of purell source.
#[derive(Debug)]
pub enum Token {
    Lambda,
    Dot,
    OpenParen,
    CloseParen,
    Ident(String),
    Num(i64),
}

/// The mathematical value of a `Token`.
pub enum TokV {
    Lambda,
    Dot,
    OpenParen,
    CloseParen,
    Ident(Seq<char>),
    Num(int),
}

impl View for Token {
    type V = TokV;

    open spec fn view(&self) -> TokV {
        match self {
            Token::Lambda => TokV::Lambda,
            Token::Dot => TokV::Dot,
            Token::OpenParen => TokV::OpenParen,
            Token::CloseParen => TokV::CloseParen,
            Token::Ident(name) => TokV::Ident(name@),
            Token::Num(n) => TokV::Num(*n as int),
        }
    }
}

/// How a token is named in diagnostics.
pub open spec fn describe_spec(t: TokV) -> Seq<char> {
    match t {
        TokV::Lambda => "'\\'"@,
        TokV::Dot => "'.'"@,
        TokV::OpenParen => "'('"@,
        TokV::CloseParen => "')'"@,
        TokV::Ident(name) => "identifier '"@ + name + "'"@,
        TokV::Num(n) => "number "@ + int_text(n),
    }
}

impl Token {
    pub fn describe(&self) -> (r: String)
        ensures
            r@ == describe_spec(self@),
    {
        match self {
            Token::Lambda => string_of("'\\'"),
            Token::Dot => string_of("'.'"),
            Token::OpenParen => string_of("'('"),
            Token::CloseParen => string_of("')'"),
            Token::Ident(name) => {
                let mut s = string_of("identifier '");
                append_str(&mut s, name.as_str());
                append_str(&mut s, "'");
                s
            },
            Token::Num(n) => {
                let mut s = string_of("number ");
                push_int_text(&mut s, *n as i128);
                s
            },
        }
    }

    fn is_close(&self) -> (r: bool)
        ensures
            r == (self@ is CloseParen),
    {
        match self {
            Token::CloseParen => true,
            _ => false,
        }
    }
}

pub open spec fn is_ident_start_char(c: char) -> bool {
    is_alpha_char(c) || c == '_'
}

pub open spec fn is_ident_continue_char(c: char) -> bool {
    is_alpha_char(c) || is_digit_char(c) || c == '_' || c == '\''
}

/// The operator characters, `+-*/%<>=`.
pub open spec fn is_symbol_char(c: char) -> bool {
    c == '+' || c == '-' || c == '*' || c == '/' || c == '%' || c == '<' || c == '>' || c == '='
}

fn is_ident_start(c: char) -> (r: bool)
    ensures
        r == is_ident_start_char(c),
{
    is_alpha(c) || c == '_'
}

fn is_ident_continue(c: char) -> (r: bool)
    ensures
        r == is_ident_continue_char(c),
{
    is_alpha(c) || is_digit(c) || c == '_' || c == '\''
}

fn is_symbol(c: char) -> (r: bool)
    ensures
        r == is_symbol_char(c),
{
    c == '+' || c == '-' || c == '*' || c == '/' || c == '%' || c == '<' || c == '>' || c == '='
}

/// End of the run of digits that starts at `i`.
pub open spec fn digits_end(cs: Seq<char>, i: int) -> int
    decreases cs.len() - i,
{
    if 0 <= i < cs.len() && is_digit_char(cs[i]) {
        digits_end(cs, i + 1)
    } else {
        i
    }
}

/// End of the run of identifier characters that starts at `i`.
pub open spec fn ident_end(cs: Seq<char>, i: int) -> int
    decreases cs.len() - i,
{
    if 0 <= i < cs.len() && is_ident_continue_char(cs[i]) {
        ident_end(cs, i + 1)
    } else {
        i
    }
}

/// End of the run of operator characters that starts at `i`.
pub open spec fn symbols_end(cs: Seq<char>, i: int) -> int
    decreases cs.len() - i,
{
    if 0 <= i < cs.len() && is_symbol_char(cs[i]) {
        symbols_end(cs, i + 1)
    } else {
        i
    }
}

pub proof fn lemma_digits_end(cs: Seq<char>, i: int)
    requires
        0 <= i <= cs.len(),
    ensures
        i <= digits_end(cs, i) <= cs.len(),
        forall|k: int| i <= k < digits_end(cs, i) ==> is_digit_char(#[trigger] cs[k]),
        digits_end(cs, i) < cs.len() ==> !is_digit_char(cs[digits_end(cs, i)]),
    decreases cs.len() - i,
{
    if i < cs.len() && is_digit_char(cs[i]) {
        lemma_digits_end(cs, i + 1);
    }
}

pub proof fn lemma_ident_end(cs: Seq<char>, i: int)
    requires
        0 <= i <= cs.len(),
    ensures
        i <= ident_end(cs, i) <= cs.len(),
        forall|k: int| i <= k < ident_end(cs, i) ==> is_ident_continue_char(#[trigger] cs[k]),
        ident_end(cs, i) < cs.len() ==> !is_ident_continue_char(cs[ident_end(cs, i)]),
    decreases cs.len() - i,
{
    if i < cs.len() && is_ident_continue_char(cs[i]) {
        lemma_ident_end(cs, i + 1);
    }
}

pub proof fn lemma_symbols_end(cs: Seq<char>, i: int)
    requires
        0 <= i <= cs.len(),
    ensures
        i <= symbols_end(cs, i) <= cs.len(),
        forall|k: int| i <= k < symbols_end(cs, i) ==> is_symbol_char(#[trigger] cs[k]),
        symbols_end(cs, i) < cs.len() ==> !is_symbol_char(cs[symbols_end(cs, i)]),
    decreases cs.len() - i,
{
    if i < cs.len() && is_symbol_char(cs[i]) {
        lemma_symbols_end(cs, i + 1);
    }
}

/// Smallest value of the 63-bit payload range.
pub open spec fn min_literal() -> int {
    -0x4000_0000_0000_0000
}

/// Largest value of the 63-bit payload range.
pub open spec fn max_literal() -> int {
    0x3fff_ffff_ffff_ffff
}

/// The value of a literal made of `digits`, negated when `negative`: an error
/// when the digits do not fit an `i128`, or when the value lies outside the
/// 63-bit payload range.
pub open spec fn int_literal(digits: Seq<char>, negative: bool) -> Result<int, Seq<char>> {
    let v = digits_value(digits);
    if v > i128::MAX {
        Err("number literal out of range: "@ + digits)
    } else {
        let value = if negative { -v } else { v as int };
        if value < min_literal() || value > max_literal() {
            Err(
                "number literal "@ + int_text(value)
                    + " does not fit in 63 bits (range -4611686018427387904..=4611686018427387903)"@,
            )
        } else {
            Ok(value)
        }
    }
}

/// Prepends `ts` to the tokens of a successful lex.
pub open spec fn prepend_tokens(ts: Seq<TokV>, r: Result<Seq<TokV>, Seq<char>>) -> Result<
    Seq<TokV>,
    Seq<char>,
> {
    match r {
        Ok(rest) => Ok(ts + rest),
        Err(e) => Err(e),
    }
}

/// The tokens of `cs` from position `i` on, or the first lexical error.
pub open spec fn lex_from(cs: Seq<char>, i: int) -> Result<Seq<TokV>, Seq<char>>
    decreases cs.len() - i,
    when 0 <= i
{
    if i >= cs.len() {
        Ok(Seq::empty())
    } else {
        let c = cs[i];
        if is_space_char(c) {
            lex_from(cs, i + 1)
        } else if c == '\\' || c == '\u{3bb}' {
            prepend_tokens(seq![TokV::Lambda], lex_from(cs, i + 1))
        } else if c == '.' {
            prepend_tokens(seq![TokV::Dot], lex_from(cs, i + 1))
        } else if c == '(' {
            prepend_tokens(seq![TokV::OpenParen], lex_from(cs, i + 1))
        } else if c == ')' {
            prepend_tokens(seq![TokV::CloseParen], lex_from(cs, i + 1))
        } else if is_digit_char(c) {
            let j = digits_end(cs, i);
            if 0 <= j < cs.len() && is_ident_continue_char(cs[j]) {
                Err("invalid number literal '"@ + cs.subrange(i, ident_end(cs, i)) + "'"@)
            } else {
                match int_literal(cs.subrange(i, j), false) {
                    Ok(n) => if i < j && j <= cs.len() { prepend_tokens(seq![TokV::Num(n)], lex_from(cs, j)) } else { Err(Seq::empty()) },
                    Err(e) => Err(e),
                }
            }
        } else if is_ident_start_char(c) {
            let j = ident_end(cs, i);
            if i < j && j <= cs.len() {
                prepend_tokens(seq![TokV::Ident(cs.subrange(i, j))], lex_from(cs, j))
            } else {
                Err(Seq::empty())
            }
        } else if is_symbol_char(c) {
            if c == '-' && i + 1 < cs.len() && is_digit_char(cs[i + 1]) {
                let j = digits_end(cs, i + 1);
                match int_literal(cs.subrange(i + 1, j), true) {
                    Ok(n) => if i < j && j <= cs.len() { prepend_tokens(seq![TokV::Num(n)], lex_from(cs, j)) } else { Err(Seq::empty()) },
                    Err(e) => Err(e),
                }
            } else {
                let j = symbols_end(cs, i);
                if i < j && j <= cs.len() {
                    prepend_tokens(seq![TokV::Ident(cs.subrange(i, j))], lex_from(cs, j))
                } else {
                    Err(Seq::empty())
                }
            }
        } else {
            Err("unexpected character '"@ + seq![c] + "'"@)
        }
    }
}

/// The tokens of `s`, or the first lexical error.
pub open spec fn lex_spec(s: Seq<char>) -> Result<Seq<TokV>, Seq<char>> {
    lex_from(s, 0)
}

pub(crate) proof fn lemma_prepend_assoc(a: Seq<TokV>, b: Seq<TokV>, r: Result<Seq<TokV>, Seq<char>>)
    ensures
        prepend_tokens(a, prepend_tokens(b, r)) == prepend_tokens(a + b, r),
{
    if let Ok(x) = r {
        assert(a + (b + x) =~= (a + b) + x);
    }
}

pub open spec fn tokens_view(ts: Seq<Token>) -> Seq<TokV> {
    ts.map_values(|t: Token| t@)
}

proof fn lemma_digits_value_step(s: Seq<char>, k: int)
    requires
        0 <= k < s.len(),
    ensures
        digits_value(s.take(k + 1)) == 10 * digits_value(s.take(k)) + crate::text::digit_value(
            s[k],
        ),
{
    assert(s.take(k + 1).drop_last() =~= s.take(k));
}

proof fn lemma_digits_value_prefix(s: Seq<char>, k: int)
    requires
        0 <= k <= s.len(),
    ensures
        digits_value(s.take(k)) <= digits_value(s),
    decreases s.len(),
{
    if k < s.len() {
        lemma_digits_value_prefix(s.drop_last(), k);
        assert(s.drop_last().take(k) =~= s.take(k));
    } else {
        assert(s.take(k) =~= s);
    }
}

/// Parse `cs[lo..hi]`, a run of digits, into the 63-bit payload range,
/// rejecting anything that would not survive tagging.
fn parse_int(cs: &Vec<char>, lo: usize, hi: usize, negative: bool) -> (r: Result<i64, String>)
    requires
        lo < hi <= cs@.len(),
        forall|k: int| lo <= k < hi ==> is_digit_char(#[trigger] cs@[k]),
    ensures
        match (r, int_literal(cs@.subrange(lo as int, hi as int), negative)) {
            (Ok(v), Ok(w)) => v as int == w,
            (Err(e), Err(f)) => e@ == f,
            _ => false,
        },
{
    let ghost digits = cs@.subrange(lo as int, hi as int);
    let mut acc: u128 = 0;
    let mut i = lo;
    while i < hi
        invariant
            lo <= i <= hi <= cs@.len(),
            digits == cs@.subrange(lo as int, hi as int),
            forall|k: int| lo <= k < hi ==> is_digit_char(#[trigger] cs@[k]),
            acc as int == digits_value(digits.take(i - lo)),
            acc <= i128::MAX,
        decreases hi - i,
    {
        let d: u128 = (cs[i] as u32 - '0' as u32) as u128;
        proof {
            lemma_digits_value_step(digits, i - lo);
            assert(digits[i - lo] == cs@[i as int]);
        }
        if acc > (170141183460469231731687303715884105727u128 - d) / 10 {
            proof {
                lemma_digits_value_prefix(digits, i - lo + 1);
            }
            let mut e = string_of("number literal out of range: ");
            let text = string_from_range(cs, lo, hi);
            append_str(&mut e, text.as_str());
            return Err(e);
        }
        acc = acc * 10 + d;
        i = i + 1;
    }
    assert(digits.take(hi - lo) =~= digits);
    let value: i128 = if negative { -(acc as i128) } else { acc as i128 };
    if value < -0x4000_0000_0000_0000i128 || value > 0x3fff_ffff_ffff_ffffi128 {
        let mut e = string_of("number literal ");
        push_int_text(&mut e, value);
        append_str(&mut e, " does not fit in 63 bits (range -4611686018427387904..=4611686018427387903)");
        return Err(e);
    }
    Ok(value as i64)
}

/// Split `source` into tokens.
pub fn lex(source: &str) -> (r: Result<Vec<Token>, String>)
    ensures
        match (r, lex_spec(source@)) {
            (Ok(ts), Ok(us)) => tokens_view(ts@) == us,
            (Err(e), Err(f)) => e@ == f,
            _ => false,
        },
{
    let chars = chars_of(source);
    let ghost cs = chars@;
    let mut tokens: Vec<Token> = Vec::new();
    let mut i: usize = 0;
    while i < chars.len()
        invariant
            cs == chars@,
            cs == source@,
            i <= cs.len(),
            lex_spec(cs) == prepend_tokens(tokens_view(tokens@), lex_from(cs, i as int)),
        decreases chars.len() - i,
    {
        let c = chars[i];
        let ghost ts0 = tokens_view(tokens@);
        let ghost i0 = i as int;
        if is_whitespace(c) {
            i = i + 1;
            continue;
        }
        if c == '\\' || c == '\u{3bb}' {
            tokens.push(Token::Lambda);
            i = i + 1;
            assert(tokens_view(tokens@) =~= ts0 + seq![TokV::Lambda]);
            proof { lemma_prepend_assoc(ts0, seq![TokV::Lambda], lex_from(cs, i as int)); }
        } else if c == '.' {
            tokens.push(Token::Dot);
            i = i + 1;
            assert(tokens_view(tokens@) =~= ts0 + seq![TokV::Dot]);
            proof { lemma_prepend_assoc(ts0, seq![TokV::Dot], lex_from(cs, i as int)); }
        } else if c == '(' {
            tokens.push(Token::OpenParen);
            i = i + 1;
            assert(tokens_view(tokens@) =~= ts0 + seq![TokV::OpenParen]);
            proof { lemma_prepend_assoc(ts0, seq![TokV::OpenParen], lex_from(cs, i as int)); }
        } else if c == ')' {
            tokens.push(Token::CloseParen);
            i = i + 1;
            assert(tokens_view(tokens@) =~= ts0 + seq![TokV::CloseParen]);
            proof { lemma_prepend_assoc(ts0, seq![TokV::CloseParen], lex_from(cs, i as int)); }
        } else if is_digit(c) {
            let start = i;
            proof {
                lemma_digits_end(cs, i as int);
            }
            while i < chars.len() && is_digit(chars[i])
                invariant
                    cs == chars@,
                    start <= i <= cs.len(),
                    digits_end(cs, start as int) == digits_end(cs, i as int),
                decreases chars.len() - i,
            {
                i = i + 1;
            }
            proof {
                lemma_digits_end(cs, i as int);
            }
            // Reject `12abc` rather than silently splitting it in two.
            if i < chars.len() && is_ident_continue(chars[i]) {
                let mut j = start;
                proof {
                    lemma_ident_end(cs, start as int);
                }
                while j < chars.len() && is_ident_continue(chars[j])
                    invariant
                        cs == chars@,
                        start <= j <= cs.len(),
                        ident_end(cs, start as int) == ident_end(cs, j as int),
                    decreases chars.len() - j,
                {
                    j = j + 1;
                }
                let mut e = string_of("invalid number literal '");
                let text = string_from_range(&chars, start, j);
                append_str(&mut e, text.as_str());
                append_str(&mut e, "'");
                return Err(e);
            }
            match parse_int(&chars, start, i, false) {
                Ok(n) => {
                    tokens.push(Token::Num(n));
                    assert(tokens_view(tokens@) =~= ts0 + seq![TokV::Num(n as int)]);
            proof { lemma_prepend_assoc(ts0, seq![TokV::Num(n as int)], lex_from(cs, i as int)); }
                },
                Err(e) => {
                    return Err(e);
                },
            }
        } else if is_ident_start(c) {
            let start = i;
            proof {
                lemma_ident_end(cs, i as int);
            }
            while i < chars.len() && is_ident_continue(chars[i])
                invariant
                    cs == chars@,
                    start <= i <= cs.len(),
                    ident_end(cs, start as int) == ident_end(cs, i as int),
                decreases chars.len() - i,
            {
                i = i + 1;
            }
            proof {
                lemma_ident_end(cs, i as int);
            }
            let name = string_from_range(&chars, start, i);
            tokens.push(Token::Ident(name));
            assert(tokens_view(tokens@) =~= ts0 + seq![TokV::Ident(name@)]);
            proof { lemma_prepend_assoc(ts0, seq![TokV::Ident(name@)], lex_from(cs, i as int)); }
        } else if is_symbol(c) {
            // `-5` is a literal; `- 5` is the subtraction primitive applied
            // to 5. The space is the whole difference.
            if c == '-' && i + 1 < chars.len() && is_digit(chars[i + 1]) {
                i = i + 1;
                let start = i;
                proof {
                    lemma_digits_end(cs, i as int);
                }
                while i < chars.len() && is_digit(chars[i])
                    invariant
                        cs == chars@,
                        start <= i <= cs.len(),
                        digits_end(cs, start as int) == digits_end(cs, i as int),
                    decreases chars.len() - i,
                {
                    i = i + 1;
                }
                proof {
                    lemma_digits_end(cs, i as int);
                }
                match parse_int(&chars, start, i, true) {
                    Ok(n) => {
                        tokens.push(Token::Num(n));
                        assert(tokens_view(tokens@) =~= ts0 + seq![TokV::Num(n as int)]);
            proof { lemma_prepend_assoc(ts0, seq![TokV::Num(n as int)], lex_from(cs, i as int)); }
                    },
                    Err(e) => {
                        return Err(e);
                    },
                }
            } else {
                let start = i;
                proof {
                    lemma_symbols_end(cs, i as int);
                }
                while i < chars.len() && is_symbol(chars[i])
                    invariant
                        cs == chars@,
                        start <= i <= cs.len(),
                        symbols_end(cs, start as int) == symbols_end(cs, i as int),
                    decreases chars.len() - i,
                {
                    i = i + 1;
                }
                proof {
                    lemma_symbols_end(cs, i as int);
                }
                let name = string_from_range(&chars, start, i);
                tokens.push(Token::Ident(name));
                assert(tokens_view(tokens@) =~= ts0 + seq![TokV::Ident(name@)]);
            proof { lemma_prepend_assoc(ts0, seq![TokV::Ident(name@)], lex_from(cs, i as int)); }
            }
        } else {
            let mut e = string_of("unexpected character '");
            push_char(&mut e, c);
            append_str(&mut e, "'");
            return Err(e);
        }
    }
    assert(tokens_view(tokens@) + Seq::<TokV>::empty() =~= tokens_view(tokens@));
    Ok(tokens)
}


/// Result of parsing from a token position: the expression and the position
/// after it, or an error message.
pub type ParseResult = Result<(ExprV, int), Seq<char>>;

/// Error for a missing `expected` token at position `p`.
pub open spec fn expected_msg(expected: TokV, ts: Seq<TokV>, p: int) -> Seq<char> {
    if 0 <= p < ts.len() {
        "expected "@ + describe_spec(expected) + ", got "@ + describe_spec(ts[p])
    } else {
        "expected "@ + describe_spec(expected) + ", got end of input"@
    }
}

/// An expression starting at `pos`: one or more atoms, applied to each other
/// from the left.
pub open spec fn p_expr(ts: Seq<TokV>, pos: int) -> ParseResult
    decreases ts.len() - pos, 3int,
{
    match p_atom(ts, pos) {
        Ok((left, p)) => if pos < p <= ts.len() {
            p_apps(ts, left, p)
        } else {
            Err(Seq::empty())
        },
        Err(e) => Err(e),
    }
}

/// Applications of `left` to the atoms from `p` up to a `)` or the end.
pub open spec fn p_apps(ts: Seq<TokV>, left: ExprV, p: int) -> ParseResult
    decreases ts.len() - p, 2int,
{
    if 0 <= p < ts.len() && !(ts[p] is CloseParen) {
        match p_atom(ts, p) {
            Ok((right, q)) => if p < q <= ts.len() {
                p_apps(ts, ExprV::App(Box::new(left), Box::new(right)), q)
            } else {
                Err(Seq::empty())
            },
            Err(e) => Err(e),
        }
    } else {
        Ok((left, p))
    }
}

/// An atom: a lambda, a number, a name or a parenthesized expression.
pub open spec fn p_atom(ts: Seq<TokV>, pos: int) -> ParseResult
    decreases ts.len() - pos, 1int,
{
    if pos < 0 || pos >= ts.len() {
        Err("unexpected end of expression"@)
    } else {
        match ts[pos] {
            TokV::Lambda => p_lambda(ts, pos),
            TokV::Num(n) => Ok((ExprV::Num(n), pos + 1)),
            TokV::Ident(name) => Ok((ExprV::Var(name), pos + 1)),
            TokV::OpenParen => match p_expr(ts, pos + 1) {
                Ok((inner, p)) => if 0 <= p < ts.len() && ts[p] is CloseParen {
                    Ok((inner, p + 1))
                } else {
                    Err(expected_msg(TokV::CloseParen, ts, p))
                },
                Err(e) => Err(e),
            },
            other => Err("unexpected "@ + describe_spec(other)),
        }
    }
}

/// A lambda whose `\` stands at `pos`: the body extends as far right as it
/// can, so `\x.f x y` is `\x.((f x) y)`.
pub open spec fn p_lambda(ts: Seq<TokV>, pos: int) -> ParseResult
    decreases ts.len() - pos, 0int,
{
    let q = pos + 1;
    if pos < 0 || q >= ts.len() {
        Err("expected a parameter name after '\\'"@)
    } else {
        match ts[q] {
            TokV::Ident(arg) => {
                let d = q + 1;
                if d < ts.len() && ts[d] is Dot {
                    match p_expr(ts, d + 1) {
                        Ok((body, p)) => Ok((ExprV::Fun(arg, Box::new(body)), p)),
                        Err(e) => Err(e),
                    }
                } else {
                    Err(expected_msg(TokV::Dot, ts, d))
                }
            },
            other => Err("expected a parameter name after '\\', got "@ + describe_spec(other)),
        }
    }
}

/// A whole token sequence as one expression.
pub open spec fn parse_tokens(ts: Seq<TokV>) -> Result<ExprV, Seq<char>> {
    match p_expr(ts, 0) {
        Ok((e, p)) => if 0 <= p < ts.len() {
            Err("unexpected "@ + describe_spec(ts[p]))
        } else {
            Ok(e)
        },
        Err(e) => Err(e),
    }
}

/// The expression that `source` denotes, or the first lexical or syntax
/// error.
pub open spec fn parse_spec(source: Seq<char>) -> Result<ExprV, Seq<char>> {
    match lex_spec(source) {
        Ok(ts) => if ts.len() == 0 {
            Err("empty expression"@)
        } else {
            parse_tokens(ts)
        },
        Err(e) => Err(e),
    }
}

/// Relates an executable parse outcome to its specification.
pub open spec fn parse_matches(r: Result<Expr, String>, s: Result<ExprV, Seq<char>>) -> bool {
    match (r, s) {
        (Ok(e), Ok(v)) => e@ == v,
        (Err(e), Err(f)) => e@ == f,
        _ => false,
    }
}

pub open spec fn step_matches(r: Result<Expr, String>, pos: int, s: ParseResult) -> bool {
    match (r, s) {
        (Ok(e), Ok((v, p))) => e@ == v && pos == p,
        (Err(e), Err(f)) => e@ == f,
        _ => false,
    }
}

struct Parser {
    tokens: Vec<Token>,
    pos: usize,
}

impl Parser {
    spec fn ts(&self) -> Seq<TokV> {
        tokens_view(self.tokens@)
    }

    fn parse(self) -> (r: Result<Expr, String>)
        requires
            self.pos == 0,
        ensures
            parse_matches(r, parse_tokens(tokens_view(self.tokens@))),
    {
        let mut this = self;
        this.parse_all()
    }

    fn parse_all(&mut self) -> (r: Result<Expr, String>)
        requires
            old(self).pos == 0,
        ensures
            parse_matches(r, parse_tokens(old(self).ts())),
    {
        let expr = self.parse_expr()?;
        if self.pos < self.tokens.len() {
            let mut e = string_of("unexpected ");
            let d = self.tokens[self.pos].describe();
            append_str(&mut e, d.as_str());
            return Err(e);
        }
        Ok(expr)
    }

    /// Application is left-associative and binds tighter than anything else.
    fn parse_expr(&mut self) -> (r: Result<Expr, String>)
        requires
            old(self).pos <= old(self).tokens@.len(),
        ensures
            final(self).tokens@ == old(self).tokens@,
            final(self).pos <= final(self).tokens@.len(),
            step_matches(r, final(self).pos as int, p_expr(old(self).ts(), old(self).pos as int)),
            r is Ok ==> final(self).pos > old(self).pos,
        decreases old(self).tokens@.len() - old(self).pos, 3int,
    {
        let ghost ts = self.ts();
        let ghost tokens0 = self.tokens@;
        let ghost start = self.pos as int;
        let mut left = self.parse_atom()?;
        while self.pos < self.tokens.len() && !self.tokens[self.pos].is_close()
            invariant
                self.tokens@ == tokens0,
                tokens0 == old(self).tokens@,
                start == old(self).pos,
                ts == old(self).ts(),
                self.ts() == ts,
                start < self.pos <= self.tokens@.len(),
                p_expr(ts, start) == p_apps(ts, left@, self.pos as int),
            decreases self.tokens@.len() - self.pos,
        {
            assert(ts[self.pos as int] == self.tokens@[self.pos as int]@);
            let right = self.parse_atom()?;
            left = Expr::App(Box::new(left), Box::new(right));
        }
        Ok(left)
    }

    fn parse_atom(&mut self) -> (r: Result<Expr, String>)
        requires
            old(self).pos <= old(self).tokens@.len(),
        ensures
            final(self).tokens@ == old(self).tokens@,
            final(self).pos <= final(self).tokens@.len(),
            step_matches(r, final(self).pos as int, p_atom(old(self).ts(), old(self).pos as int)),
            r is Ok ==> final(self).pos > old(self).pos,
        decreases old(self).tokens@.len() - old(self).pos, 1int,
    {
        if self.pos >= self.tokens.len() {
            return Err(string_of("unexpected end of expression"));
        }
        let ghost ts = self.ts();
        assert(ts[self.pos as int] == self.tokens@[self.pos as int]@);
        match &self.tokens[self.pos] {
            Token::Lambda => self.parse_lambda(),
            Token::Num(n) => {
                let n = *n;
                self.pos = self.pos + 1;
                Ok(Expr::Num(n))
            },
            Token::Ident(name) => {
                let name = name.clone();
                self.pos = self.pos + 1;
                Ok(Expr::Var(name))
            },
            Token::OpenParen => {
                self.pos = self.pos + 1;
                let inner = self.parse_expr()?;
                self.expect_close()?;
                Ok(inner)
            },
            other => {
                let mut e = string_of("unexpected ");
                let d = other.describe();
                append_str(&mut e, d.as_str());
                Err(e)
            },
        }
    }

    /// A lambda body extends as far right as it can, so `\x.f x y` is
    /// `\x.((f x) y)`.
    fn parse_lambda(&mut self) -> (r: Result<Expr, String>)
        requires
            old(self).pos < old(self).tokens@.len(),
            old(self).ts()[old(self).pos as int] is Lambda,
        ensures
            final(self).tokens@ == old(self).tokens@,
            final(self).pos <= final(self).tokens@.len(),
            step_matches(r, final(self).pos as int, p_lambda(old(self).ts(), old(self).pos as int)),
            r is Ok ==> final(self).pos > old(self).pos,
        decreases old(self).tokens@.len() - old(self).pos, 0int,
    {
        let ghost ts = self.ts();
        let len = self.tokens.len();
        self.pos = self.pos + 1;
        if self.pos >= len {
            return Err(string_of("expected a parameter name after '\\'"));
        }
        assert(ts[self.pos as int] == self.tokens@[self.pos as int]@);
        let arg = match &self.tokens[self.pos] {
            Token::Ident(name) => {
                let name = name.clone();
                self.pos = self.pos + 1;
                name
            },
            other => {
                let mut e = string_of("expected a parameter name after '\\', got ");
                let d = other.describe();
                append_str(&mut e, d.as_str());
                return Err(e);
            },
        };
        self.expect_dot()?;
        let body = self.parse_expr()?;
        Ok(Expr::Fun { arg, body: Box::new(body) })
    }

    fn expect_close(&mut self) -> (r: Result<(), String>)
        requires
            old(self).pos <= old(self).tokens@.len(),
        ensures
            final(self).tokens@ == old(self).tokens@,
            match r {
                Ok(_) => old(self).pos < old(self).tokens@.len() && old(self).ts()[old(self).pos as int] is CloseParen
                    && final(self).pos == old(self).pos + 1,
                Err(e) => !(old(self).pos < old(self).tokens@.len() && old(self).ts()[old(self).pos as int] is CloseParen)
                    && final(self).pos == old(self).pos && e@ == expected_msg(TokV::CloseParen, old(self).ts(), old(self).pos as int),
            },
    {
        self.expect_kind(&Token::CloseParen)
    }

    fn expect_dot(&mut self) -> (r: Result<(), String>)
        requires
            old(self).pos <= old(self).tokens@.len(),
        ensures
            final(self).tokens@ == old(self).tokens@,
            match r {
                Ok(_) => old(self).pos < old(self).tokens@.len() && old(self).ts()[old(self).pos as int] is Dot
                    && final(self).pos == old(self).pos + 1,
                Err(e) => !(old(self).pos < old(self).tokens@.len() && old(self).ts()[old(self).pos as int] is Dot)
                    && final(self).pos == old(self).pos && e@ == expected_msg(TokV::Dot, old(self).ts(), old(self).pos as int),
            },
    {
        self.expect_kind(&Token::Dot)
    }

    /// Consume a token of the same kind as `expected`, which is one of the
    /// punctuation tokens.
    fn expect_kind(&mut self, expected: &Token) -> (r: Result<(), String>)
        requires
            old(self).pos <= old(self).tokens@.len(),
            !(expected@ is Ident),
            !(expected@ is Num),
        ensures
            final(self).tokens@ == old(self).tokens@,
            match r {
                Ok(_) => old(self).pos < old(self).tokens@.len() && old(self).ts()[old(self).pos as int] == expected@
                    && final(self).pos == old(self).pos + 1,
                Err(e) => !(old(self).pos < old(self).tokens@.len() && old(self).ts()[old(self).pos as int] == expected@)
                    && final(self).pos == old(self).pos && e@ == expected_msg(expected@, old(self).ts(), old(self).pos as int),
            },
    {
        if self.pos < self.tokens.len() {
            assert(self.ts()[self.pos as int] == self.tokens@[self.pos as int]@);
            if same_kind(&self.tokens[self.pos], expected) {
                self.pos = self.pos + 1;
                return Ok(());
            }
            let mut e = string_of("expected ");
            append_str(&mut e, expected.describe().as_str());
            append_str(&mut e, ", got ");
            append_str(&mut e, self.tokens[self.pos].describe().as_str());
            Err(e)
        } else {
            let mut e = string_of("expected ");
            append_str(&mut e, expected.describe().as_str());
            append_str(&mut e, ", got end of input");
            Err(e)
        }
    }
}

/// Whether two tokens are of the same kind, `b` being a punctuation token.
fn same_kind(a: &Token, b: &Token) -> (r: bool)
    requires
        !(b@ is Ident),
        !(b@ is Num),
    ensures
        r == (a@ == b@),
{
    match (a, b) {
        (Token::Lambda, Token::Lambda) => true,
        (Token::Dot, Token::Dot) => true,
        (Token::OpenParen, Token::OpenParen) => true,
        (Token::CloseParen, Token::CloseParen) => true,
        _ => false,
    }
}

/// Parse one expression of purell source.
pub fn parse_expr(source: &str) -> (r: Result<Expr, String>)
    ensures
        parse_matches(r, parse_spec(source@)),
{
    let tokens = lex(source)?;
    if tokens.len() == 0 {
        return Err(string_of("empty expression"));
    }
    Parser { tokens, pos: 0 }.parse()
}

} // verus!
