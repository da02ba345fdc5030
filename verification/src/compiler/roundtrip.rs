//! Printing and parsing agree: the text that `Expr::show` writes parses back
//! into the same term.
use vstd::prelude::*;

use crate::compiler::ast::{show_spec, write_spec, ExprV};
use crate::compiler::lexer::{
    digits_end, ident_end, int_literal, is_ident_continue_char, is_ident_start_char,
    is_symbol_char, lemma_digits_end, lemma_ident_end, lemma_prepend_assoc, lemma_symbols_end,
    lex_from, max_literal, min_literal, p_apps, p_atom, p_expr, p_lambda, parse_spec,
    prepend_tokens, symbols_end, TokV,
};
use crate::text::{digit_char, digit_value, digits_value, int_text, is_digit_char, nat_text};

verus! {

/// Whether `n` can name a variable in source text: an identifier, or a run
/// of operator characters.
pub open spec fn is_name(n: Seq<char>) -> bool {
    &&& n.len() > 0
    &&& ((is_ident_start_char(n[0]) && forall|k: int|
        0 <= k < n.len() ==> is_ident_continue_char(#[trigger] n[k])) || (forall|k: int|
        0 <= k < n.len() ==> is_symbol_char(#[trigger] n[k])))
}

/// Whether every name of `e` can be written as source text and every number
/// of `e` fits the 63-bit range.
pub open spec fn writable(e: ExprV) -> bool
    decreases e,
{
    match e {
        ExprV::Var(n) => is_name(n),
        ExprV::Num(n) => min_literal() <= n <= max_literal(),
        ExprV::Fun(arg, body) => is_name(arg) && writable(*body),
        ExprV::App(left, right) => writable(*left) && writable(*right),
    }
}

/// A character that may follow the text of a written term.
pub open spec fn ends_term(cs: Seq<char>, j: int) -> bool {
    j == cs.len() || cs[j] == ' ' || cs[j] == ')'
}

proof fn lemma_digit_char(d: nat)
    requires
        d < 10,
    ensures
        is_digit_char(digit_char(d)),
        digit_value(digit_char(d)) == d,
{
}

proof fn lemma_nat_text(k: nat)
    ensures
        nat_text(k).len() > 0,
        forall|j: int| 0 <= j < nat_text(k).len() ==> is_digit_char(#[trigger] nat_text(k)[j]),
        digits_value(nat_text(k)) == k,
    decreases k,
{
    if k >= 10 {
        lemma_nat_text(k / 10);
        lemma_digit_char(k % 10);
        let t = nat_text(k / 10);
        let d = digit_char(k % 10);
        assert(nat_text(k) == t.push(d));
        assert(t.push(d).drop_last() =~= t);
        assert(digits_value(t.push(d)) == 10 * digits_value(t) + digit_value(d));
    } else {
        lemma_digit_char(k);
        let t = seq![digit_char(k)];
        assert(t.drop_last() =~= Seq::<char>::empty());
        assert(digits_value(t) == 10 * digits_value(Seq::<char>::empty()) + digit_value(digit_char(k)));
    }
}

proof fn lemma_digits_end_at(cs: Seq<char>, i: int, j: int)
    requires
        0 <= i <= j <= cs.len(),
        forall|k: int| i <= k < j ==> is_digit_char(#[trigger] cs[k]),
        j == cs.len() || !is_digit_char(cs[j]),
    ensures
        digits_end(cs, i) == j,
    decreases j - i,
{
    if i < j {
        lemma_digits_end_at(cs, i + 1, j);
    }
}

proof fn lemma_ident_end_at(cs: Seq<char>, i: int, j: int)
    requires
        0 <= i <= j <= cs.len(),
        forall|k: int| i <= k < j ==> is_ident_continue_char(#[trigger] cs[k]),
        j == cs.len() || !is_ident_continue_char(cs[j]),
    ensures
        ident_end(cs, i) == j,
    decreases j - i,
{
    if i < j {
        lemma_ident_end_at(cs, i + 1, j);
    }
}

proof fn lemma_symbols_end_at(cs: Seq<char>, i: int, j: int)
    requires
        0 <= i <= j <= cs.len(),
        forall|k: int| i <= k < j ==> is_symbol_char(#[trigger] cs[k]),
        j == cs.len() || !is_symbol_char(cs[j]),
    ensures
        symbols_end(cs, i) == j,
    decreases j - i,
{
    if i < j {
        lemma_symbols_end_at(cs, i + 1, j);
    }
}

/// A name, followed by white space, `)`, `.` or the end, lexes as one name.
proof fn lemma_lex_name(cs: Seq<char>, i: int, n: Seq<char>)
    requires
        is_name(n),
        0 <= i,
        i + n.len() <= cs.len(),
        cs.subrange(i, i + n.len()) == n,
        ends_term(cs, i + n.len()) || cs[i + n.len()] == '.',
    ensures
        lex_from(cs, i) == prepend_tokens(seq![TokV::Ident(n)], lex_from(cs, i + n.len())),
{
    let j = i + n.len();
    assert(cs[i] == n[0]);
    assert forall|k: int| i <= k < j implies cs[k] == n[k - i] by {
        assert(cs.subrange(i, j)[k - i] == cs[k]);
    }
    if is_ident_start_char(n[0]) && forall|k: int| 0 <= k < n.len() ==> is_ident_continue_char(#[trigger] n[k]) {
        assert forall|k: int| i <= k < j implies is_ident_continue_char(#[trigger] cs[k]) by {
            assert(is_ident_continue_char(n[k - i]));
        }
        lemma_ident_end_at(cs, i, j);
    } else {
        assert forall|k: int| i <= k < j implies is_symbol_char(#[trigger] cs[k]) by {
            assert(is_symbol_char(n[k - i]));
        }
        lemma_symbols_end_at(cs, i, j);
        if n.len() > 1 {
            assert(is_symbol_char(cs[i + 1]));
        }
    }
}

/// A numeral of a non-negative number in range, followed by white space,
/// `)` or the end, lexes as one number.
#[verifier::rlimit(40)]
proof fn lemma_lex_nat(cs: Seq<char>, i: int, v: int)
    requires
        0 <= v <= max_literal(),
        0 <= i,
        i + nat_text(v as nat).len() <= cs.len(),
        cs.subrange(i, i + nat_text(v as nat).len()) == nat_text(v as nat),
        ends_term(cs, i + nat_text(v as nat).len()),
    ensures
        lex_from(cs, i) == prepend_tokens(seq![TokV::Num(v)], lex_from(cs, i + nat_text(v as nat).len())),
{
    let t = nat_text(v as nat);
    let j = i + t.len();
    lemma_nat_text(v as nat);
    assert forall|k: int| i <= k < j implies is_digit_char(#[trigger] cs[k]) by {
        assert(cs.subrange(i, j)[k - i] == cs[k]);
        assert(is_digit_char(t[k - i]));
    }
    lemma_digits_end_at(cs, i, j);
    assert(is_digit_char(cs[i]));
    assert(int_literal(cs.subrange(i, j), false) == Ok::<int, Seq<char>>(v));
    assert(!(0 <= j < cs.len() && is_ident_continue_char(cs[j])));
}

/// A numeral of a negative number in range, followed by white space, `)` or
/// the end, lexes as one number.
#[verifier::rlimit(40)]
proof fn lemma_lex_neg(cs: Seq<char>, i: int, v: int)
    requires
        min_literal() <= v < 0,
        0 <= i,
        i + 1 + nat_text((-v) as nat).len() <= cs.len(),
        cs[i] == '-',
        cs.subrange(i + 1, i + 1 + nat_text((-v) as nat).len()) == nat_text((-v) as nat),
        ends_term(cs, i + 1 + nat_text((-v) as nat).len()),
    ensures
        lex_from(cs, i) == prepend_tokens(seq![TokV::Num(v)], lex_from(cs, i + 1 + nat_text((-v) as nat).len())),
{
    let d = nat_text((-v) as nat);
    let j = i + 1 + d.len();
    lemma_nat_text((-v) as nat);
    assert forall|k: int| i + 1 <= k < j implies is_digit_char(#[trigger] cs[k]) by {
        assert(cs.subrange(i + 1, j)[k - i - 1] == cs[k]);
        assert(is_digit_char(d[k - i - 1]));
    }
    lemma_digits_end_at(cs, i + 1, j);
    assert(is_digit_char(cs[i + 1]));
    assert(int_literal(cs.subrange(i + 1, j), true) == Ok::<int, Seq<char>>(v));
}

/// A numeral in range, followed by white space, `)` or the end, lexes as one
/// number.
proof fn lemma_lex_num(cs: Seq<char>, i: int, v: int)
    requires
        min_literal() <= v <= max_literal(),
        0 <= i,
        i + int_text(v).len() <= cs.len(),
        cs.subrange(i, i + int_text(v).len()) == int_text(v),
        ends_term(cs, i + int_text(v).len()),
    ensures
        lex_from(cs, i) == prepend_tokens(seq![TokV::Num(v)], lex_from(cs, i + int_text(v).len())),
{
    let t = int_text(v);
    if v >= 0 {
        lemma_lex_nat(cs, i, v);
    } else {
        let d = nat_text((-v) as nat);
        assert(t == seq!['-'] + d);
        assert(cs[i] == cs.subrange(i, i + t.len())[0]);
        assert(cs.subrange(i + 1, i + 1 + d.len()) =~= t.subrange(1, t.len() as int));
        assert(t.subrange(1, t.len() as int) =~= d);
        lemma_lex_neg(cs, i, v);
    }
}

/// `ts` in parentheses when `parens` is set.
pub open spec fn wrap_tokens(ts: Seq<TokV>, parens: bool) -> Seq<TokV> {
    if parens {
        seq![TokV::OpenParen] + ts + seq![TokV::CloseParen]
    } else {
        ts
    }
}

/// The tokens of the text `write_spec(e, parens)`.
pub open spec fn tokens_of(e: ExprV, parens: bool) -> Seq<TokV>
    decreases e,
{
    match e {
        ExprV::Var(n) => seq![TokV::Ident(n)],
        ExprV::Num(n) => seq![TokV::Num(n)],
        ExprV::Fun(arg, body) => wrap_tokens(
            seq![TokV::Lambda, TokV::Ident(arg), TokV::Dot] + tokens_of(*body, false),
            parens,
        ),
        ExprV::App(left, right) => wrap_tokens(
            tokens_of(*left, (*left) is Fun) + tokens_of(*right, !((*right) is Var || (*right) is Num)),
            parens,
        ),
    }
}

/// The text of a writable term, followed by white space, `)` or the end,
/// lexes into its tokens.
#[verifier::rlimit(40)]
proof fn lemma_lex_written(cs: Seq<char>, i: int, e: ExprV, parens: bool)
    requires
        writable(e),
        0 <= i,
        i + write_spec(e, parens).len() <= cs.len(),
        cs.subrange(i, i + write_spec(e, parens).len()) == write_spec(e, parens),
        ends_term(cs, i + write_spec(e, parens).len()),
    ensures
        lex_from(cs, i) == prepend_tokens(tokens_of(e, parens), lex_from(cs, i + write_spec(e, parens).len())),
    decreases e, if parens { 1int } else { 0int },
{
    let w = write_spec(e, parens);
    let j = i + w.len();
    reveal_strlit("(");
    reveal_strlit(")");
    reveal_strlit("\\");
    reveal_strlit(".");
    reveal_strlit(" ");
    match e {
        ExprV::Var(n) => {
            lemma_lex_name(cs, i, n);
        },
        ExprV::Num(v) => {
            lemma_lex_num(cs, i, v);
        },
        _ => {
            if parens {
                let inner = write_spec(e, false);
                assert(w == "("@ + inner + ")"@);
                assert(cs[i] == w[0]);
                assert(cs.subrange(i + 1, i + 1 + inner.len() as int) =~= w.subrange(1, 1 + inner.len() as int));
                assert(w.subrange(1, 1 + inner.len() as int) =~= inner);
                assert(cs[i + 1 + inner.len() as int] == w[1 + inner.len() as int]);
                lemma_lex_written(cs, i + 1, e, false);
                let rest = lex_from(cs, j);
                assert(lex_from(cs, i + 1 + inner.len() as int) == prepend_tokens(seq![TokV::CloseParen], rest));
                lemma_prepend_assoc(tokens_of(e, false), seq![TokV::CloseParen], rest);
                lemma_prepend_assoc(seq![TokV::OpenParen], tokens_of(e, false) + seq![TokV::CloseParen], rest);
                assert(seq![TokV::OpenParen] + (tokens_of(e, false) + seq![TokV::CloseParen]) =~= tokens_of(e, true));
            } else {
                match e {
                    ExprV::Fun(arg, body) => {
                        let wb = write_spec(*body, false);
                        assert(w == "\\"@ + arg + "."@ + wb);
                        let a = i + 1;
                        let d = a + arg.len();
                        assert(cs[i] == w[0]);
                        assert(cs.subrange(a, d) =~= w.subrange(1, 1 + arg.len() as int));
                        assert(w.subrange(1, 1 + arg.len() as int) =~= arg);
                        assert(cs[d] == w[1 + arg.len() as int]);
                        assert(cs.subrange(d + 1, j) =~= w.subrange(2 + arg.len() as int, w.len() as int));
                        assert(w.subrange(2 + arg.len() as int, w.len() as int) =~= wb);
                        lemma_lex_name(cs, a, arg);
                        lemma_lex_written(cs, d + 1, *body, false);
                        let rest = lex_from(cs, j);
                        lemma_prepend_assoc(seq![TokV::Dot], tokens_of(*body, false), rest);
                        lemma_prepend_assoc(seq![TokV::Ident(arg)], seq![TokV::Dot] + tokens_of(*body, false), rest);
                        lemma_prepend_assoc(
                            seq![TokV::Lambda],
                            seq![TokV::Ident(arg)] + (seq![TokV::Dot] + tokens_of(*body, false)),
                            rest,
                        );
                        assert(seq![TokV::Lambda] + (seq![TokV::Ident(arg)] + (seq![TokV::Dot] + tokens_of(*body, false)))
                            =~= tokens_of(e, false));
                    },
                    ExprV::App(left, right) => {
                        let lp = (*left) is Fun;
                        let rp = !((*right) is Var || (*right) is Num);
                        let wl = write_spec(*left, lp);
                        let wr = write_spec(*right, rp);
                        assert(w == wl + " "@ + wr);
                        let m = i + wl.len();
                        assert(cs.subrange(i, m) =~= w.subrange(0, wl.len() as int));
                        assert(w.subrange(0, wl.len() as int) =~= wl);
                        assert(cs[m] == w[wl.len() as int]);
                        assert(cs.subrange(m + 1, j) =~= w.subrange(wl.len() as int + 1, w.len() as int));
                        assert(w.subrange(wl.len() as int + 1, w.len() as int) =~= wr);
                        lemma_lex_written(cs, i, *left, lp);
                        lemma_lex_written(cs, m + 1, *right, rp);
                        lemma_prepend_assoc(tokens_of(*left, lp), tokens_of(*right, rp), lex_from(cs, j));
                    },
                    _ => {},
                }
            }
        },
    }
}

/// Whether `p` ends an expression in `ts`: it is the end or a `)`.
pub open spec fn ends_expr(ts: Seq<TokV>, p: int) -> bool {
    p == ts.len() || (0 <= p < ts.len() && ts[p] is CloseParen)
}

proof fn lemma_tokens_first(e: ExprV, parens: bool)
    ensures
        tokens_of(e, parens).len() > 0,
        !(tokens_of(e, parens)[0] is CloseParen),
    decreases e,
{
    match e {
        ExprV::App(left, right) => {
            lemma_tokens_first(*left, (*left) is Fun);
            let tl = tokens_of(*left, (*left) is Fun);
            let tr = tokens_of(*right, !((*right) is Var || (*right) is Num));
            if !parens {
                assert((tl + tr)[0] == tl[0]);
            }
        },
        _ => {},
    }
}

/// The tokens of a parenthesized term, a name or a number parse as one atom.
proof fn lemma_parse_atom(ts: Seq<TokV>, pos: int, e: ExprV)
    requires
        0 <= pos,
        pos + tokens_of(e, true).len() <= ts.len(),
        ts.subrange(pos, pos + tokens_of(e, true).len()) == tokens_of(e, true),
    ensures
        p_atom(ts, pos) == Ok::<(ExprV, int), Seq<char>>((e, pos + tokens_of(e, true).len())),
    decreases e, 1int,
{
    let t = tokens_of(e, true);
    assert(ts[pos] == t[0]);
    match e {
        ExprV::Var(_) => {},
        ExprV::Num(_) => {},
        _ => {
            let inner = tokens_of(e, false);
            let n = inner.len() as int;
            assert(t == seq![TokV::OpenParen] + inner + seq![TokV::CloseParen]);
            assert(ts.subrange(pos + 1, pos + 1 + n) =~= t.subrange(1, 1 + n));
            assert(t.subrange(1, 1 + n) =~= inner);
            assert(ts[pos + 1 + n] == t[1 + n]);
            lemma_parse_expr(ts, pos + 1, e);
        },
    }
}

/// The tokens of a term parse back into it: up to a `)` or the end as a
/// whole expression, and, for a term other than a lambda, as the head of
/// the applications that follow.
proof fn lemma_parse_expr(ts: Seq<TokV>, pos: int, e: ExprV)
    requires
        0 <= pos,
        pos + tokens_of(e, false).len() <= ts.len(),
        ts.subrange(pos, pos + tokens_of(e, false).len()) == tokens_of(e, false),
    ensures
        !(e is Fun) ==> p_expr(ts, pos) == p_apps(ts, e, pos + tokens_of(e, false).len()),
        ends_expr(ts, pos + tokens_of(e, false).len()) ==> p_expr(ts, pos) == Ok::<(ExprV, int), Seq<char>>(
            (e, pos + tokens_of(e, false).len()),
        ),
    decreases e, 0int,
{
    let t = tokens_of(e, false);
    let end = pos + t.len();
    lemma_tokens_first(e, false);
    assert(ts[pos] == t[0]);
    match e {
        ExprV::Var(_) => {},
        ExprV::Num(_) => {},
        ExprV::Fun(arg, body) => {
            let tb = tokens_of(*body, false);
            assert(t == seq![TokV::Lambda, TokV::Ident(arg), TokV::Dot] + tb);
            assert(ts[pos + 1] == t[1]);
            assert(ts[pos + 2] == t[2]);
            assert(ts.subrange(pos + 3, end) =~= t.subrange(3, t.len() as int));
            assert(t.subrange(3, t.len() as int) =~= tb);
            if ends_expr(ts, end) {
                lemma_parse_expr(ts, pos + 3, *body);
            }
        },
        ExprV::App(left, right) => {
            let lp = (*left) is Fun;
            let rp = !((*right) is Var || (*right) is Num);
            let tl = tokens_of(*left, lp);
            let tr = tokens_of(*right, rp);
            let m = pos + tl.len();
            assert(t == tl + tr);
            assert(ts.subrange(pos, m) =~= t.subrange(0, tl.len() as int));
            assert(t.subrange(0, tl.len() as int) =~= tl);
            assert(ts.subrange(m, end) =~= t.subrange(tl.len() as int, t.len() as int));
            assert(t.subrange(tl.len() as int, t.len() as int) =~= tr);
            assert(tr == tokens_of(*right, true));
            if lp {
                lemma_parse_atom(ts, pos, *left);
                lemma_tokens_first(*left, true);
                assert(ts[pos] == tl[0]);
            } else {
                lemma_parse_expr(ts, pos, *left);
            }
            lemma_tokens_first(*right, rp);
            assert(ts[m] == tr[0]);
            lemma_parse_atom(ts, m, *right);
        },
    }
}

/// Printing is faithful: the text that `Expr::show` writes for a term whose
/// names are identifiers or runs of operator characters, and whose numbers
/// fit in 63 bits, parses back into that same term.
pub proof fn lemma_show_parses_back(e: ExprV)
    requires
        writable(e),
    ensures
        parse_spec(show_spec(e)) == Ok::<ExprV, Seq<char>>(e),
{
    let cs = write_spec(e, false);
    assert(cs.subrange(0, cs.len() as int) =~= cs);
    lemma_lex_written(cs, 0, e, false);
    let ts = tokens_of(e, false);
    assert(ts + Seq::<TokV>::empty() =~= ts);
    lemma_tokens_first(e, false);
    assert(ts.subrange(0, ts.len() as int) =~= ts);
    lemma_parse_expr(ts, 0, e);
}

/// Whether a token can come from writable text: a name that can be written,
/// or a number in range.
pub open spec fn token_ok(t: TokV) -> bool {
    match t {
        TokV::Ident(n) => is_name(n),
        TokV::Num(v) => min_literal() <= v <= max_literal(),
        _ => true,
    }
}

pub open spec fn tokens_ok(ts: Seq<TokV>) -> bool {
    forall|k: int| 0 <= k < ts.len() ==> token_ok(#[trigger] ts[k])
}

proof fn lemma_prepend_ok(ts: Seq<TokV>, r: Result<Seq<TokV>, Seq<char>>)
    requires
        tokens_ok(ts),
        r matches Ok(rest) ==> tokens_ok(rest),
    ensures
        prepend_tokens(ts, r) matches Ok(all) ==> tokens_ok(all),
{
    if let Ok(rest) = r {
        let all = ts + rest;
        assert forall|k: int| 0 <= k < all.len() implies token_ok(#[trigger] all[k]) by {
            if k < ts.len() {
                assert(all[k] == ts[k]);
            } else {
                assert(all[k] == rest[k - ts.len()]);
            }
        }
    }
}

/// Every token that lexing yields is a writable name or a number in range.
#[verifier::rlimit(40)]
proof fn lemma_lex_tokens_ok(cs: Seq<char>, i: int)
    requires
        0 <= i,
    ensures
        lex_from(cs, i) matches Ok(ts) ==> tokens_ok(ts),
    decreases cs.len() - i,
{
    if i < cs.len() {
        let c = cs[i];
        if c == '\\' || c == '\u{3bb}' || c == '.' || c == '(' || c == ')' {
            lemma_lex_tokens_ok(cs, i + 1);
            let t = if c == '.' { TokV::Dot } else if c == '(' { TokV::OpenParen } else if c == ')' { TokV::CloseParen } else { TokV::Lambda };
            lemma_prepend_ok(seq![t], lex_from(cs, i + 1));
        } else if !crate::text::is_space_char(c) {
            if is_digit_char(c) {
                let j = digits_end(cs, i);
                lemma_digits_end(cs, i);
                if j > i {
                    lemma_lex_tokens_ok(cs, j);
                    if let Ok(n) = int_literal(cs.subrange(i, j), false) {
                        lemma_prepend_ok(seq![TokV::Num(n)], lex_from(cs, j));
                    }
                }
            } else if is_ident_start_char(c) {
                let j = ident_end(cs, i);
                lemma_ident_end(cs, i);
                if i < j {
                    lemma_lex_tokens_ok(cs, j);
                    let n = cs.subrange(i, j);
                    assert forall|k: int| 0 <= k < n.len() implies is_ident_continue_char(#[trigger] n[k]) by {
                        assert(n[k] == cs[i + k]);
                    }
                    assert(n[0] == c);
                    lemma_prepend_ok(seq![TokV::Ident(n)], lex_from(cs, j));
                }
            } else if is_symbol_char(c) {
                if c == '-' && i + 1 < cs.len() && is_digit_char(cs[i + 1]) {
                    let j = digits_end(cs, i + 1);
                    lemma_digits_end(cs, i + 1);
                    if i < j {
                        lemma_lex_tokens_ok(cs, j);
                        if let Ok(n) = int_literal(cs.subrange(i + 1, j), true) {
                            lemma_prepend_ok(seq![TokV::Num(n)], lex_from(cs, j));
                        }
                    }
                } else {
                    let j = symbols_end(cs, i);
                    lemma_symbols_end(cs, i);
                    if i < j {
                        lemma_lex_tokens_ok(cs, j);
                        let n = cs.subrange(i, j);
                        assert forall|k: int| 0 <= k < n.len() implies is_symbol_char(#[trigger] n[k]) by {
                            assert(n[k] == cs[i + k]);
                        }
                        lemma_prepend_ok(seq![TokV::Ident(n)], lex_from(cs, j));
                    }
                }
            }
        } else {
            lemma_lex_tokens_ok(cs, i + 1);
        }
    }
}

proof fn lemma_p_expr_writable(ts: Seq<TokV>, pos: int)
    requires
        tokens_ok(ts),
    ensures
        p_expr(ts, pos) matches Ok((e, _)) ==> writable(e),
    decreases ts.len() - pos, 3int,
{
    lemma_p_atom_writable(ts, pos);
    if let Ok((left, p)) = p_atom(ts, pos) {
        if pos < p <= ts.len() {
            lemma_p_apps_writable(ts, left, p);
        }
    }
}

proof fn lemma_p_apps_writable(ts: Seq<TokV>, left: ExprV, p: int)
    requires
        tokens_ok(ts),
        writable(left),
    ensures
        p_apps(ts, left, p) matches Ok((e, _)) ==> writable(e),
    decreases ts.len() - p, 2int,
{
    if 0 <= p < ts.len() && !(ts[p] is CloseParen) {
        lemma_p_atom_writable(ts, p);
        if let Ok((right, q)) = p_atom(ts, p) {
            if p < q <= ts.len() {
                lemma_p_apps_writable(ts, ExprV::App(Box::new(left), Box::new(right)), q);
            }
        }
    }
}

proof fn lemma_p_atom_writable(ts: Seq<TokV>, pos: int)
    requires
        tokens_ok(ts),
    ensures
        p_atom(ts, pos) matches Ok((e, _)) ==> writable(e),
    decreases ts.len() - pos, 1int,
{
    if 0 <= pos < ts.len() {
        assert(token_ok(ts[pos]));
        match ts[pos] {
            TokV::Lambda => lemma_p_lambda_writable(ts, pos),
            TokV::OpenParen => lemma_p_expr_writable(ts, pos + 1),
            _ => {},
        }
    }
}

proof fn lemma_p_lambda_writable(ts: Seq<TokV>, pos: int)
    requires
        tokens_ok(ts),
    ensures
        p_lambda(ts, pos) matches Ok((e, _)) ==> writable(e),
    decreases ts.len() - pos, 0int,
{
    let q = pos + 1;
    if 0 <= pos && q < ts.len() {
        assert(token_ok(ts[q]));
        if let TokV::Ident(arg) = ts[q] {
            let d = q + 1;
            if d < ts.len() && ts[d] is Dot {
                lemma_p_expr_writable(ts, d + 1);
            }
        }
    }
}

/// Every term that parsing yields can be written back: its names are
/// identifiers or runs of operator characters and its numbers fit in 63
/// bits. With `lemma_show_parses_back`, showing a parsed term and parsing
/// the text again gives the same term.
pub proof fn lemma_parsed_is_writable(s: Seq<char>)
    ensures
        parse_spec(s) matches Ok(e) ==> writable(e),
{
    lemma_lex_tokens_ok(s, 0);
    if let Ok(ts) = crate::compiler::lexer::lex_spec(s) {
        lemma_p_expr_writable(ts, 0);
    }
}

/// Every term that parsing yields prints as text that parses back into it.
pub proof fn lemma_parse_show_parse(s: Seq<char>)
    ensures
        parse_spec(s) matches Ok(e) ==> parse_spec(show_spec(e)) == Ok::<ExprV, Seq<char>>(e),
{
    lemma_parsed_is_writable(s);
    if let Ok(e) = parse_spec(s) {
        lemma_show_parses_back(e);
    }
}

} // verus!
