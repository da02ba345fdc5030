//! Tokenizer and parser of the interpreter.
use vstd::prelude::*;

use crate::interp::term::{Expr, ExprV};
use crate::text::{
    append_str, append_string, chars_of, is_alpha_char, is_digit_char, is_space_char,
    is_whitespace, push_char, string_from_range, string_of,
};

verus! {

/// Whether `c` has the Unicode `Alphabetic` property (`char::is_alphabetic`).
pub uninterp spec fn alphabetic(c: char) -> bool;

/// Whether `c` has a Unicode numeric general category (`char::is_numeric`).
pub uninterp spec fn numeric(c: char) -> bool;

/// Debug text of a string (`<str as Debug>::fmt`): quoted, with escapes.
pub uninterp spec fn debug_text(s: Seq<char>) -> Seq<char>;

/// `char::is_alphabetic`. Trusted: an ASCII character is alphabetic exactly
/// when it is an ASCII letter; for any other character the answer is
/// `alphabetic(c)`, a fixed property of the character.
#[verifier::external_body]
fn char_is_alphabetic(c: char) -> (r: bool)
    ensures
        (c as u32) < 128 ==> r == is_alpha_char(c),
        (c as u32) >= 128 ==> r == alphabetic(c),
{
    c.is_alphabetic()
}

/// `char::is_numeric`. Trusted: an ASCII character is numeric exactly when
/// it is an ASCII digit; for any other character the answer is `numeric(c)`,
/// a fixed property of the character.
#[verifier::external_body]
fn char_is_numeric(c: char) -> (r: bool)
    ensures
        (c as u32) < 128 ==> r == is_digit_char(c),
        (c as u32) >= 128 ==> r == numeric(c),
{
    c.is_numeric()
}

/// The `Debug` text of a string, `format!("{:?}", s)`. Trusted: the text
/// depends on the text of `s` alone, and is named `debug_text`.
#[verifier::external_body]
pub(crate) fn debug_string(s: &String) -> (r: String)
    ensures
        r@ == debug_text(s@),
{
    format!("{:?}", s)
}

/// A token of interpreter source.
#[derive(Debug)]
pub enum Token {
    Lambda,
    Dot,
    OpenParen,
    CloseParen,
    Ident(String),
}

/// The mathematical value of a `Token`.
pub enum TokV {
    Lambda,
    Dot,
    OpenParen,
    CloseParen,
    Ident(Seq<char>),
}

impl View for Token {
    type V = TokV;

    open spec fn view(&self) -> TokV {
        match self {
            Token::Lambda => TokV::Lambda,
            Token::Dot => TokV::Dot,
            Token::OpenParen => TokV::OpenParen,
            Token::CloseParen => TokV::CloseParen,
            Token::Ident(name) => TokV::Ident(name@),
        }
    }
}

pub open spec fn tokens_view(ts: Seq<Token>) -> Seq<TokV> {
    ts.map_values(|t: Token| t@)
}

/// Debug text of a token, as `derive(Debug)` writes it.
pub open spec fn debug_token(t: TokV) -> Seq<char> {
    match t {
        TokV::Lambda => "Lambda"@,
        TokV::Dot => "Dot"@,
        TokV::OpenParen => "OpenParen"@,
        TokV::CloseParen => "CloseParen"@,
        TokV::Ident(name) => "Ident("@ + debug_text(name) + ")"@,
    }
}

/// Debug text of the tokens `ts[i..]` after the first, each preceded by `, `.
pub open spec fn debug_rest(ts: Seq<TokV>, i: int) -> Seq<char>
    decreases ts.len() - i,
{
    if i < 0 || i >= ts.len() {
        Seq::empty()
    } else {
        ", "@ + debug_token(ts[i]) + debug_rest(ts, i + 1)
    }
}

/// Debug text of the token slice `ts[i..]`.
pub open spec fn debug_tokens(ts: Seq<TokV>, i: int) -> Seq<char> {
    if 0 <= i < ts.len() {
        "["@ + debug_token(ts[i]) + debug_rest(ts, i + 1) + "]"@
    } else {
        "[]"@
    }
}

impl Token {
    fn debug(&self) -> (r: String)
        ensures
            r@ == debug_token(self@),
    {
        match self {
            Token::Lambda => string_of("Lambda"),
            Token::Dot => string_of("Dot"),
            Token::OpenParen => string_of("OpenParen"),
            Token::CloseParen => string_of("CloseParen"),
            Token::Ident(name) => {
                let mut s = string_of("Ident(");
                let d = debug_string(name);
                append_string(&mut s, &d);
                append_str(&mut s, ")");
                s
            },
        }
    }

    fn is_close(&self) -> (r: bool)
        ensures
            r == (self@ is CloseParen),
    {
        match self {
            Token::CloseParen => true,
            _ => false,
        }
    }
}

/// Characters that start a name: ASCII letters and digits, and `_`.
pub open spec fn is_name_start(c: char) -> bool {
    is_alpha_char(c) || is_digit_char(c) || c == '_'
}

/// Characters that continue a name: alphabetic or numeric ones (within ASCII,
/// letters and digits), and `_`.
pub open spec fn is_name_char(c: char) -> bool {
    if (c as u32) < 128 {
        is_alpha_char(c) || is_digit_char(c) || c == '_'
    } else {
        alphabetic(c) || numeric(c)
    }
}

/// End of the run of name characters that starts at `i`.
pub open spec fn name_end(cs: Seq<char>, i: int) -> int
    decreases cs.len() - i,
{
    if 0 <= i < cs.len() && is_name_char(cs[i]) {
        name_end(cs, i + 1)
    } else {
        i
    }
}

proof fn lemma_name_end(cs: Seq<char>, i: int)
    requires
        0 <= i <= cs.len(),
    ensures
        i <= name_end(cs, i) <= cs.len(),
    decreases cs.len() - i,
{
    if i < cs.len() && is_name_char(cs[i]) {
        lemma_name_end(cs, i + 1);
    }
}

pub open spec fn prepend_tokens(ts: Seq<TokV>, r: Result<Seq<TokV>, Seq<char>>) -> Result<
    Seq<TokV>,
    Seq<char>,
> {
    match r {
        Ok(rest) => Ok(ts + rest),
        Err(e) => Err(e),
    }
}

/// The tokens of `cs` from position `i` on, or the first lexical error.
pub open spec fn lex_from(cs: Seq<char>, i: int) -> Result<Seq<TokV>, Seq<char>>
    decreases cs.len() - i,
    when 0 <= i
{
    if i >= cs.len() {
        Ok(Seq::empty())
    } else {
        let c = cs[i];
        if is_space_char(c) {
            lex_from(cs, i + 1)
        } else if c == '\\' {
            prepend_tokens(seq![TokV::Lambda], lex_from(cs, i + 1))
        } else if c == '.' {
            prepend_tokens(seq![TokV::Dot], lex_from(cs, i + 1))
        } else if c == '(' {
            prepend_tokens(seq![TokV::OpenParen], lex_from(cs, i + 1))
        } else if c == ')' {
            prepend_tokens(seq![TokV::CloseParen], lex_from(cs, i + 1))
        } else if is_name_start(c) {
            let j = name_end(cs, i + 1);
            if i < j <= cs.len() {
                prepend_tokens(seq![TokV::Ident(cs.subrange(i, j))], lex_from(cs, j))
            } else {
                Err(Seq::empty())
            }
        } else {
            Err("Unexpected character "@ + seq![c])
        }
    }
}

/// The tokens of `s`, or the first lexical error.
pub open spec fn lex_spec(s: Seq<char>) -> Result<Seq<TokV>, Seq<char>> {
    lex_from(s, 0)
}

pub(crate) proof fn lemma_prepend_assoc(a: Seq<TokV>, b: Seq<TokV>, r: Result<Seq<TokV>, Seq<char>>)
    ensures
        prepend_tokens(a, prepend_tokens(b, r)) == prepend_tokens(a + b, r),
{
    if let Ok(x) = r {
        assert(a + (b + x) =~= (a + b) + x);
    }
}

/// Split `source` into tokens.
fn lex_expr(source: &str) -> (r: Result<Vec<Token>, String>)
    ensures
        match (r, lex_spec(source@)) {
            (Ok(ts), Ok(us)) => tokens_view(ts@) == us,
            (Err(e), Err(f)) => e@ == f,
            _ => false,
        },
{
    let chars = chars_of(source);
    let ghost cs = chars@;
    let mut tokens: Vec<Token> = Vec::new();
    let mut i: usize = 0;
    while i < chars.len()
        invariant
            cs == chars@,
            cs == source@,
            i <= cs.len(),
            lex_spec(cs) == prepend_tokens(tokens_view(tokens@), lex_from(cs, i as int)),
        decreases chars.len() - i,
    {
        let c = chars[i];
        let ghost ts0 = tokens_view(tokens@);
        if is_whitespace(c) {
            i = i + 1;
            continue;
        }
        if c == '\\' {
            tokens.push(Token::Lambda);
            i = i + 1;
            assert(tokens_view(tokens@) =~= ts0 + seq![TokV::Lambda]);
            proof { lemma_prepend_assoc(ts0, seq![TokV::Lambda], lex_from(cs, i as int)); }
        } else if c == '.' {
            tokens.push(Token::Dot);
            i = i + 1;
            assert(tokens_view(tokens@) =~= ts0 + seq![TokV::Dot]);
            proof { lemma_prepend_assoc(ts0, seq![TokV::Dot], lex_from(cs, i as int)); }
        } else if c == '(' {
            tokens.push(Token::OpenParen);
            i = i + 1;
            assert(tokens_view(tokens@) =~= ts0 + seq![TokV::OpenParen]);
            proof { lemma_prepend_assoc(ts0, seq![TokV::OpenParen], lex_from(cs, i as int)); }
        } else if c == ')' {
            tokens.push(Token::CloseParen);
            i = i + 1;
            assert(tokens_view(tokens@) =~= ts0 + seq![TokV::CloseParen]);
            proof { lemma_prepend_assoc(ts0, seq![TokV::CloseParen], lex_from(cs, i as int)); }
        } else if ('a' <= c && c <= 'z') || ('A' <= c && c <= 'Z') || ('0' <= c && c <= '9') || c == '_' {
            let start = i;
            i = i + 1;
            proof {
                lemma_name_end(cs, i as int);
            }
            while i < chars.len() && (char_is_alphabetic(chars[i]) || char_is_numeric(chars[i]) || chars[i] == '_')
                invariant
                    cs == chars@,
                    start < i <= cs.len(),
                    name_end(cs, start + 1) == name_end(cs, i as int),
                decreases chars.len() - i,
            {
                i = i + 1;
            }
            let name = string_from_range(&chars, start, i);
            tokens.push(Token::Ident(name));
            assert(tokens_view(tokens@) =~= ts0 + seq![TokV::Ident(name@)]);
            proof { lemma_prepend_assoc(ts0, seq![TokV::Ident(name@)], lex_from(cs, i as int)); }
        } else {
            let mut e = string_of("Unexpected character ");
            push_char(&mut e, c);
            return Err(e);
        }
    }
    assert(tokens_view(tokens@) + Seq::<TokV>::empty() =~= tokens_view(tokens@));
    Ok(tokens)
}

/// Result of parsing from a token position: the expression and the position
/// after it; or an error, `None` standing for a lambda cut off right after
/// its `\\`, where parsing cannot go on.
pub type ParseResult = Result<(ExprV, int), Option<Seq<char>>>;

/// Result of parsing an atom: the expression, whether it was parenthesized,
/// and the position after it.
pub type AtomResult = Result<(ExprV, bool, int), Option<Seq<char>>>;

/// Error for a missing `expected` token at position `p`.
pub open spec fn expected_msg(expected: TokV, ts: Seq<TokV>, p: int) -> Seq<char> {
    if 0 <= p < ts.len() {
        "Expected "@ + debug_token(expected) + ", got "@ + debug_token(ts[p])
    } else {
        "Expected "@ + debug_token(expected) + ", got EOF"@
    }
}

/// An expression at `pos`: atoms applied to each other from the left.
pub open spec fn p_expr(ts: Seq<TokV>, pos: int) -> ParseResult
    decreases ts.len() - pos, 3int,
{
    match p_atom(ts, pos) {
        Ok((left, parens, p)) => if pos < p <= ts.len() {
            p_apps(ts, left, parens, p)
        } else {
            Err(None)
        },
        Err(e) => Err(e),
    }
}

/// Applications of `left` (parenthesized if `left_parens`) to the atoms from
/// `p` up to a `)` or the end: an application is marked `right_first` when
/// its argument is parenthesized and the atom before it is not.
pub open spec fn p_apps(ts: Seq<TokV>, left: ExprV, left_parens: bool, p: int) -> ParseResult
    decreases ts.len() - p, 2int,
{
    if 0 <= p < ts.len() && !(ts[p] is CloseParen) {
        match p_atom(ts, p) {
            Ok((right, right_parens, q)) => if p < q <= ts.len() {
                p_apps(
                    ts,
                    ExprV::App(Box::new(left), Box::new(right), right_parens && !left_parens),
                    right_parens,
                    q,
                )
            } else {
                Err(None)
            },
            Err(e) => Err(e),
        }
    } else {
        Ok((left, p))
    }
}

/// An atom: a lambda, a name or a parenthesized expression.
pub open spec fn p_atom(ts: Seq<TokV>, pos: int) -> AtomResult
    decreases ts.len() - pos, 1int,
{
    if pos < 0 || pos >= ts.len() {
        Err(Some("Unexpected end of input"@))
    } else {
        match ts[pos] {
            TokV::Lambda => match p_lambda(ts, pos) {
                Ok((e, p)) => Ok((e, false, p)),
                Err(m) => Err(m),
            },
            TokV::Ident(name) => Ok((ExprV::Var(name), false, pos + 1)),
            TokV::OpenParen => match p_expr(ts, pos + 1) {
                Ok((inner, p)) => if 0 <= p < ts.len() && ts[p] is CloseParen {
                    Ok((inner, true, p + 1))
                } else {
                    Err(Some(expected_msg(TokV::CloseParen, ts, p)))
                },
                Err(e) => Err(e),
            },
            other => Err(Some("Unexpected token "@ + debug_token(other))),
        }
    }
}

/// A lambda whose `\\` stands at `pos`.
pub open spec fn p_lambda(ts: Seq<TokV>, pos: int) -> ParseResult
    decreases ts.len() - pos, 0int,
{
    let q = pos + 1;
    if pos < 0 || q >= ts.len() {
        Err(None)
    } else {
        match ts[q] {
            TokV::Ident(arg) => {
                let d = q + 1;
                if d < ts.len() && ts[d] is Dot {
                    match p_expr(ts, d + 1) {
                        Ok((body, p)) => Ok((ExprV::Fun(arg, Box::new(body)), p)),
                        Err(e) => Err(e),
                    }
                } else {
                    Err(Some(expected_msg(TokV::Dot, ts, d)))
                }
            },
            other => Err(Some("Expected Identifier got "@ + debug_token(other))),
        }
    }
}

/// A whole token sequence as one expression.
pub open spec fn parse_tokens(ts: Seq<TokV>) -> Result<ExprV, Option<Seq<char>>> {
    match p_expr(ts, 0) {
        Ok((e, p)) => if 0 <= p < ts.len() {
            Err(Some("Unexpected token(s) "@ + debug_tokens(ts, p)))
        } else {
            Ok(e)
        },
        Err(e) => Err(e),
    }
}

/// The expression that `source` denotes, or the error; `Err(None)` where the
/// source ends in a lambda cut off right after its `\\`.
pub open spec fn parse_spec(source: Seq<char>) -> Result<ExprV, Option<Seq<char>>> {
    match lex_spec(source) {
        Ok(ts) => parse_tokens(ts),
        Err(e) => Err(Some(e)),
    }
}

/// Whether parsing `source` runs into a lambda cut off right after its `\\`.
pub open spec fn parse_stuck(source: Seq<char>) -> bool {
    parse_spec(source) == Err::<ExprV, Option<Seq<char>>>(None)
}

pub open spec fn step_matches(r: Result<Expr, Option<String>>, pos: int, s: ParseResult) -> bool {
    match (r, s) {
        (Ok(e), Ok((v, p))) => e@ == v && pos == p,
        (Err(Some(e)), Err(Some(f))) => e@ == f,
        (Err(None), Err(None)) => true,
        _ => false,
    }
}

pub open spec fn atom_matches(r: Result<(Expr, bool), Option<String>>, pos: int, s: AtomResult) -> bool {
    match (r, s) {
        (Ok((e, b)), Ok((v, c, p))) => e@ == v && b == c && pos == p,
        (Err(Some(e)), Err(Some(f))) => e@ == f,
        (Err(None), Err(None)) => true,
        _ => false,
    }
}

pub open spec fn parse_matches(r: Result<Expr, Option<String>>, s: Result<ExprV, Option<Seq<char>>>) -> bool {
    match (r, s) {
        (Ok(e), Ok(v)) => e@ == v,
        (Err(Some(e)), Err(Some(f))) => e@ == f,
        (Err(None), Err(None)) => true,
        _ => false,
    }
}

struct ExprParser {
    tokens: Vec<Token>,
    pos: usize,
}

impl ExprParser {
    spec fn ts(&self) -> Seq<TokV> {
        tokens_view(self.tokens@)
    }

    fn new(expr: Vec<Token>) -> (r: ExprParser)
        ensures
            r.tokens@ == expr@,
            r.pos == 0,
    {
        ExprParser { tokens: expr, pos: 0 }
    }

    fn parse(self) -> (r: Result<Expr, Option<String>>)
        requires
            self.pos == 0,
        ensures
            parse_matches(r, parse_tokens(tokens_view(self.tokens@))),
    {
        let mut this = self;
        this.parse_all()
    }

    fn parse_all(&mut self) -> (r: Result<Expr, Option<String>>)
        requires
            old(self).pos == 0,
        ensures
            parse_matches(r, parse_tokens(old(self).ts())),
    {
        let expr = self.parse_expr()?;
        // All tokens should be consumed
        if self.pos < self.tokens.len() {
            let mut e = string_of("Unexpected token(s) ");
            let d = self.debug_from(self.pos);
            append_string(&mut e, &d);
            return Err(Some(e));
        }
        Ok(expr)
    }

    /// Debug text of the tokens from `i` on.
    fn debug_from(&self, i: usize) -> (r: String)
        requires
            i < self.tokens@.len(),
        ensures
            r@ == debug_tokens(self.ts(), i as int),
    {
        let ghost ts = self.ts();
        let mut s = string_of("[");
        assert(ts[i as int] == self.tokens@[i as int]@);
        let first = self.tokens[i].debug();
        append_string(&mut s, &first);
        let n = self.tokens.len();
        let mut j = i + 1;
        let ghost prefix = "["@ + debug_token(ts[i as int]);
        while j < self.tokens.len()
            invariant
                ts == self.ts(),
                i < j <= ts.len(),
                prefix == "["@ + debug_token(ts[i as int]),
                s@ + debug_rest(ts, j as int) == prefix + debug_rest(ts, i + 1),
            decreases self.tokens.len() - j,
        {
            let ghost s0 = s@;
            assert(ts[j as int] == self.tokens@[j as int]@);
            append_str(&mut s, ", ");
            let d = self.tokens[j].debug();
            append_string(&mut s, &d);
            assert(s0 + debug_rest(ts, j as int) =~= s@ + debug_rest(ts, j + 1));
            j = j + 1;
        }
        append_str(&mut s, "]");
        assert(s@ =~= prefix + debug_rest(ts, i + 1) + "]"@);
        s
    }

    fn parse_expr(&mut self) -> (r: Result<Expr, Option<String>>)
        requires
            old(self).pos <= old(self).tokens@.len(),
        ensures
            final(self).tokens@ == old(self).tokens@,
            final(self).pos <= final(self).tokens@.len(),
            step_matches(r, final(self).pos as int, p_expr(old(self).ts(), old(self).pos as int)),
            r is Ok ==> final(self).pos > old(self).pos,
        decreases old(self).tokens@.len() - old(self).pos, 3int,
    {
        let ghost ts = self.ts();
        let ghost tokens0 = self.tokens@;
        let ghost start = self.pos as int;
        let (mut left, mut left_parens) = self.parse_atom_with_parens()?;
        while self.pos < self.tokens.len() && !self.tokens[self.pos].is_close()
            invariant
                self.tokens@ == tokens0,
                tokens0 == old(self).tokens@,
                start == old(self).pos,
                ts == old(self).ts(),
                self.ts() == ts,
                start < self.pos <= self.tokens@.len(),
                p_expr(ts, start) == p_apps(ts, left@, left_parens, self.pos as int),
            decreases self.tokens@.len() - self.pos,
        {
            assert(ts[self.pos as int] == self.tokens@[self.pos as int]@);
            let (right, right_first) = self.parse_atom_with_parens()?;
            left = Expr::App {
                left: Box::new(left),
                right: Box::new(right),
                right_first: right_first && !left_parens,
            };
            left_parens = right_first;
        }
        Ok(left)
    }

    fn parse_atom_with_parens(&mut self) -> (r: Result<(Expr, bool), Option<String>>)
        requires
            old(self).pos <= old(self).tokens@.len(),
        ensures
            final(self).tokens@ == old(self).tokens@,
            final(self).pos <= final(self).tokens@.len(),
            atom_matches(r, final(self).pos as int, p_atom(old(self).ts(), old(self).pos as int)),
            r is Ok ==> final(self).pos > old(self).pos,
        decreases old(self).tokens@.len() - old(self).pos, 1int,
    {
        if self.pos >= self.tokens.len() {
            return Err(Some(string_of("Unexpected end of input")));
        }
        let ghost ts = self.ts();
        assert(ts[self.pos as int] == self.tokens@[self.pos as int]@);
        match &self.tokens[self.pos] {
            Token::Lambda => {
                let e = self.parse_lambda()?;
                Ok((e, false))
            },
            Token::Ident(name) => {
                let name = name.clone();
                self.pos = self.pos + 1;
                Ok((Expr::Var(name), false))
            },
            Token::OpenParen => {
                self.pos = self.pos + 1;
                let expr = self.parse_expr()?;
                self.expect_kind(&Token::CloseParen)?;
                Ok((expr, true))
            },
            token => {
                let mut e = string_of("Unexpected token ");
                let d = token.debug();
                append_string(&mut e, &d);
                Err(Some(e))
            },
        }
    }

    fn parse_lambda(&mut self) -> (r: Result<Expr, Option<String>>)
        requires
            old(self).pos < old(self).tokens@.len(),
            old(self).ts()[old(self).pos as int] is Lambda,
        ensures
            final(self).tokens@ == old(self).tokens@,
            final(self).pos <= final(self).tokens@.len(),
            step_matches(r, final(self).pos as int, p_lambda(old(self).ts(), old(self).pos as int)),
            r is Ok ==> final(self).pos > old(self).pos,
        decreases old(self).tokens@.len() - old(self).pos, 0int,
    {
        let ghost ts = self.ts();
        self.expect_kind(&Token::Lambda)?;
        if self.pos >= self.tokens.len() {
            // A lambda cut off right after its `\`.
            return Err(None);
        }
        assert(ts[self.pos as int] == self.tokens@[self.pos as int]@);
        let arg = match &self.tokens[self.pos] {
            Token::Ident(name) => {
                let name = name.clone();
                self.pos = self.pos + 1;
                name
            },
            token => {
                let mut e = string_of("Expected Identifier got ");
                let d = token.debug();
                append_string(&mut e, &d);
                return Err(Some(e));
            },
        };
        self.expect_kind(&Token::Dot)?;
        let body = self.parse_expr()?;
        Ok(Expr::Fun { arg, body: Box::new(body) })
    }

    /// Consume a token of the same kind as `expected`, a punctuation token.
    fn expect_kind(&mut self, expected: &Token) -> (r: Result<(), Option<String>>)
        requires
            old(self).pos <= old(self).tokens@.len(),
            !(expected@ is Ident),
        ensures
            final(self).tokens@ == old(self).tokens@,
            match r {
                Ok(_) => old(self).pos < old(self).tokens@.len() && old(self).ts()[old(self).pos as int] == expected@
                    && final(self).pos == old(self).pos + 1,
                Err(e) => !(old(self).pos < old(self).tokens@.len() && old(self).ts()[old(self).pos as int] == expected@)
                    && final(self).pos == old(self).pos && (e matches Some(m) && m@ == expected_msg(expected@, old(self).ts(), old(self).pos as int)),
            },
    {
        if self.pos >= self.tokens.len() {
            let mut e = string_of("Expected ");
            append_string(&mut e, &expected.debug());
            append_str(&mut e, ", got EOF");
            return Err(Some(e));
        }
        assert(self.ts()[self.pos as int] == self.tokens@[self.pos as int]@);
        if same_kind(&self.tokens[self.pos], expected) {
            self.pos = self.pos + 1;
            Ok(())
        } else {
            let mut e = string_of("Expected ");
            append_string(&mut e, &expected.debug());
            append_str(&mut e, ", got ");
            append_string(&mut e, &self.tokens[self.pos].debug());
            Err(Some(e))
        }
    }
}

/// Whether two tokens are of the same kind, `b` being a punctuation token.
fn same_kind(a: &Token, b: &Token) -> (r: bool)
    requires
        !(b@ is Ident),
    ensures
        r == (a@ == b@),
{
    match (a, b) {
        (Token::Lambda, Token::Lambda) => true,
        (Token::Dot, Token::Dot) => true,
        (Token::OpenParen, Token::OpenParen) => true,
        (Token::CloseParen, Token::CloseParen) => true,
        _ => false,
    }
}

/// Parse `expr_string` into a term, or report why it cannot be one; `None`
/// when parsing runs into a lambda cut off right after its `\\`.
pub fn try_parse_expr(expr_string: String) -> (r: Option<Result<Expr, String>>)
    ensures
        r is None <==> parse_stuck(expr_string@),
        r matches Some(Ok(e)) ==> parse_spec(expr_string@) == Ok::<ExprV, Option<Seq<char>>>(e@),
        r matches Some(Err(m)) ==> parse_spec(expr_string@) == Err::<ExprV, Option<Seq<char>>>(Some(m@)),
{
    let tokens = match lex_expr(expr_string.as_str()) {
        Ok(ts) => ts,
        Err(e) => return Some(Err(e)),
    };
    match ExprParser::new(tokens).parse() {
        Ok(e) => Some(Ok(e)),
        Err(Some(m)) => Some(Err(m)),
        Err(None) => None,
    }
}

/// Parse `expr_string` into a term, or report why it cannot be one.
pub fn parse_expr(expr_string: String) -> (r: Result<Expr, String>)
    requires
        !parse_stuck(expr_string@),
    ensures
        match r {
            Ok(e) => parse_spec(expr_string@) == Ok::<ExprV, Option<Seq<char>>>(e@),
            Err(m) => parse_spec(expr_string@) == Err::<ExprV, Option<Seq<char>>>(Some(m@)),
        },
{
    match try_parse_expr(expr_string) {
        Some(r) => r,
        None => Err(String::new()),
    }
}

} // verus!
