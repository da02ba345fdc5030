//! Printing and parsing agree: the text that `Expr::show` writes parses back
//! into the same term, up to the marks on applications.
use vstd::prelude::*;

use crate::interp::lexer::{
    is_name_char, is_name_start, lemma_prepend_assoc, lex_from, lex_spec, name_end, p_apps, p_atom,
    p_expr, p_lambda, parse_spec, prepend_tokens, TokV,
};
use crate::interp::term::{show_spec, ExprV};

verus! {

/// Whether `n` can name a variable in source text.
pub open spec fn is_name(n: Seq<char>) -> bool {
    &&& n.len() > 0
    &&& is_name_start(n[0])
    &&& forall|k: int| 1 <= k < n.len() ==> is_name_char(#[trigger] n[k])
}

/// Whether every name of `e` can be written as source text.
pub open spec fn writable(e: ExprV) -> bool
    decreases e,
{
    match e {
        ExprV::Var(n) => is_name(n),
        ExprV::Fun(arg, body) => is_name(arg) && writable(*body),
        ExprV::App(left, right, _) => writable(*left) && writable(*right),
    }
}

/// `e` with every application unmarked: the term as a tree.
pub open spec fn erase(e: ExprV) -> ExprV
    decreases e,
{
    match e {
        ExprV::Var(n) => ExprV::Var(n),
        ExprV::Fun(arg, body) => ExprV::Fun(arg, Box::new(erase(*body))),
        ExprV::App(left, right, _) => ExprV::App(Box::new(erase(*left)), Box::new(erase(*right)), false),
    }
}

/// A character that may follow the text of a written term.
pub open spec fn ends_term(cs: Seq<char>, j: int) -> bool {
    j == cs.len() || cs[j] == ' ' || cs[j] == ')'
}

/// `ts` in parentheses when `parens` is set.
pub open spec fn wrap_tokens(ts: Seq<TokV>, parens: bool) -> Seq<TokV> {
    if parens {
        seq![TokV::OpenParen] + ts + seq![TokV::CloseParen]
    } else {
        ts
    }
}

/// The argument of an application is written in parentheses.
pub open spec fn arg_parens(right: ExprV, right_first: bool) -> bool {
    right is Fun || right is App || right_first
}

/// The tokens of the text `show_spec(e, parens)`.
pub open spec fn tokens_of(e: ExprV, parens: bool) -> Seq<TokV>
    decreases e,
{
    match e {
        ExprV::Var(n) => seq![TokV::Ident(n)],
        ExprV::Fun(arg, body) => wrap_tokens(
            seq![TokV::Lambda, TokV::Ident(arg), TokV::Dot] + tokens_of(*body, false),
            parens,
        ),
        ExprV::App(left, right, right_first) => wrap_tokens(
            tokens_of(*left, (*left) is Fun) + tokens_of(*right, arg_parens(*right, right_first)),
            parens,
        ),
    }
}

proof fn lemma_name_end_at(cs: Seq<char>, i: int, j: int)
    requires
        0 <= i <= j <= cs.len(),
        forall|k: int| i <= k < j ==> is_name_char(#[trigger] cs[k]),
        j == cs.len() || !is_name_char(cs[j]),
    ensures
        name_end(cs, i) == j,
    decreases j - i,
{
    if i < j {
        lemma_name_end_at(cs, i + 1, j);
    }
}

/// A name, followed by white space, `)`, `.` or the end, lexes as one name.
proof fn lemma_lex_name(cs: Seq<char>, i: int, n: Seq<char>)
    requires
        is_name(n),
        0 <= i,
        i + n.len() <= cs.len(),
        cs.subrange(i, i + n.len()) == n,
        ends_term(cs, i + n.len()) || cs[i + n.len()] == '.',
    ensures
        lex_from(cs, i) == prepend_tokens(seq![TokV::Ident(n)], lex_from(cs, i + n.len())),
{
    let j = i + n.len();
    assert(cs[i] == n[0]);
    assert forall|k: int| i + 1 <= k < j implies is_name_char(#[trigger] cs[k]) by {
        assert(cs.subrange(i, j)[k - i] == cs[k]);
        assert(is_name_char(n[k - i]));
    }
    lemma_name_end_at(cs, i + 1, j);
    assert(cs.subrange(i, j) == n);
}

/// The text of a writable term, followed by white space, `)` or the end,
/// lexes into its tokens.
#[verifier::rlimit(40)]
proof fn lemma_lex_written(cs: Seq<char>, i: int, e: ExprV, parens: bool)
    requires
        writable(e),
        0 <= i,
        i + show_spec(e, parens).len() <= cs.len(),
        cs.subrange(i, i + show_spec(e, parens).len()) == show_spec(e, parens),
        ends_term(cs, i + show_spec(e, parens).len()),
    ensures
        lex_from(cs, i) == prepend_tokens(tokens_of(e, parens), lex_from(cs, i + show_spec(e, parens).len())),
    decreases e, if parens { 1int } else { 0int },
{
    let w = show_spec(e, parens);
    let j = i + w.len();
    reveal_strlit("(");
    reveal_strlit(")");
    reveal_strlit("\\");
    reveal_strlit(".");
    reveal_strlit(" ");
    match e {
        ExprV::Var(n) => {
            lemma_lex_name(cs, i, n);
        },
        _ => {
            if parens {
                let inner = show_spec(e, false);
                assert(w == "("@ + inner + ")"@);
                assert(cs[i] == w[0]);
                assert(cs.subrange(i + 1, i + 1 + inner.len() as int) =~= w.subrange(1, 1 + inner.len() as int));
                assert(w.subrange(1, 1 + inner.len() as int) =~= inner);
                assert(cs[i + 1 + inner.len() as int] == w[1 + inner.len() as int]);
                lemma_lex_written(cs, i + 1, e, false);
                let rest = lex_from(cs, j);
                assert(lex_from(cs, i + 1 + inner.len()) == prepend_tokens(seq![TokV::CloseParen], rest));
                lemma_prepend_assoc(tokens_of(e, false), seq![TokV::CloseParen], rest);
                lemma_prepend_assoc(seq![TokV::OpenParen], tokens_of(e, false) + seq![TokV::CloseParen], rest);
                assert(seq![TokV::OpenParen] + (tokens_of(e, false) + seq![TokV::CloseParen]) =~= tokens_of(e, true));
            } else {
                match e {
                    ExprV::Fun(arg, body) => {
                        let wb = show_spec(*body, false);
                        assert(w == "\\"@ + arg + "."@ + wb);
                        let a = i + 1;
                        let d = a + arg.len();
                        assert(cs[i] == w[0]);
                        assert(cs.subrange(a, d) =~= w.subrange(1, 1 + arg.len() as int));
                        assert(w.subrange(1, 1 + arg.len() as int) =~= arg);
                        assert(cs[d] == w[1 + arg.len() as int]);
                        assert(cs.subrange(d + 1, j) =~= w.subrange(2 + arg.len() as int, w.len() as int));
                        assert(w.subrange(2 + arg.len() as int, w.len() as int) =~= wb);
                        lemma_lex_name(cs, a, arg);
                        lemma_lex_written(cs, d + 1, *body, false);
                        let rest = lex_from(cs, j);
                        lemma_prepend_assoc(seq![TokV::Dot], tokens_of(*body, false), rest);
                        lemma_prepend_assoc(seq![TokV::Ident(arg)], seq![TokV::Dot] + tokens_of(*body, false), rest);
                        lemma_prepend_assoc(
                            seq![TokV::Lambda],
                            seq![TokV::Ident(arg)] + (seq![TokV::Dot] + tokens_of(*body, false)),
                            rest,
                        );
                        assert(seq![TokV::Lambda] + (seq![TokV::Ident(arg)] + (seq![TokV::Dot] + tokens_of(*body, false)))
                            =~= tokens_of(e, false));
                    },
                    ExprV::App(left, right, right_first) => {
                        let lp = (*left) is Fun;
                        let rp = arg_parens(*right, right_first);
                        let wl = show_spec(*left, lp);
                        let wr = show_spec(*right, rp);
                        assert(w == wl + " "@ + wr);
                        let m = i + wl.len();
                        assert(cs.subrange(i, m) =~= w.subrange(0, wl.len() as int));
                        assert(w.subrange(0, wl.len() as int) =~= wl);
                        assert(cs[m] == w[wl.len() as int]);
                        assert(cs.subrange(m + 1, j) =~= w.subrange(wl.len() as int + 1, w.len() as int));
                        assert(w.subrange(wl.len() as int + 1, w.len() as int) =~= wr);
                        lemma_lex_written(cs, i, *left, lp);
                        lemma_lex_written(cs, m + 1, *right, rp);
                        lemma_prepend_assoc(tokens_of(*left, lp), tokens_of(*right, rp), lex_from(cs, j));
                    },
                    _ => {},
                }
            }
        },
    }
}

/// Whether `p` ends an expression in `ts`: it is the end or a `)`.
pub open spec fn ends_expr(ts: Seq<TokV>, p: int) -> bool {
    p == ts.len() || (0 <= p < ts.len() && ts[p] is CloseParen)
}

proof fn lemma_tokens_first(e: ExprV, parens: bool)
    ensures
        tokens_of(e, parens).len() > 0,
        !(tokens_of(e, parens)[0] is CloseParen),
    decreases e,
{
    match e {
        ExprV::App(left, right, right_first) => {
            lemma_tokens_first(*left, (*left) is Fun);
            let tl = tokens_of(*left, (*left) is Fun);
            let tr = tokens_of(*right, arg_parens(*right, right_first));
            if !parens {
                assert((tl + tr)[0] == tl[0]);
            }
        },
        _ => {},
    }
}

/// Applications built on accumulated terms that agree as trees agree as
/// trees, and end at the same place.
proof fn lemma_apps_erase(ts: Seq<TokV>, l1: ExprV, lp1: bool, l2: ExprV, lp2: bool, p: int)
    requires
        erase(l1) == erase(l2),
    ensures
        match (p_apps(ts, l1, lp1, p), p_apps(ts, l2, lp2, p)) {
            (Ok((a, q)), Ok((b, r))) => erase(a) == erase(b) && q == r,
            (Err(x), Err(y)) => x == y,
            _ => false,
        },
    decreases ts.len() - p,
{
    if 0 <= p < ts.len() && !(ts[p] is CloseParen) {
        if let Ok((right, rp, q)) = p_atom(ts, p) {
            if p < q <= ts.len() {
                lemma_apps_erase(
                    ts,
                    ExprV::App(Box::new(l1), Box::new(right), rp && !lp1),
                    rp,
                    ExprV::App(Box::new(l2), Box::new(right), rp && !lp2),
                    rp,
                    q,
                );
            }
        }
    }
}

/// The tokens of a parenthesized term or a name parse as one atom.
proof fn lemma_parse_atom(ts: Seq<TokV>, pos: int, e: ExprV, parens: bool)
    requires
        parens || e is Var,
        0 <= pos,
        pos + tokens_of(e, parens).len() <= ts.len(),
        ts.subrange(pos, pos + tokens_of(e, parens).len()) == tokens_of(e, parens),
    ensures
        p_atom(ts, pos) matches Ok((e2, _, q)) && q == pos + tokens_of(e, parens).len() && erase(e2) == erase(e),
    decreases e, 1int,
{
    let t = tokens_of(e, parens);
    lemma_tokens_first(e, parens);
    assert(ts[pos] == t[0]);
    match e {
        ExprV::Var(_) => {},
        _ => {
            let inner = tokens_of(e, false);
            let n = inner.len() as int;
            assert(t == seq![TokV::OpenParen] + inner + seq![TokV::CloseParen]);
            assert(ts.subrange(pos + 1, pos + 1 + n) =~= t.subrange(1, 1 + n));
            assert(t.subrange(1, 1 + n) =~= inner);
            assert(ts[pos + 1 + n] == t[1 + n]);
            lemma_parse_expr(ts, pos + 1, e);
        },
    }
}

/// The tokens of a term parse back into it as a tree: up to a `)` or the end
/// as a whole expression, and, for a term other than a lambda, as the head
/// of the applications that follow.
proof fn lemma_parse_expr(ts: Seq<TokV>, pos: int, e: ExprV)
    requires
        0 <= pos,
        pos + tokens_of(e, false).len() <= ts.len(),
        ts.subrange(pos, pos + tokens_of(e, false).len()) == tokens_of(e, false),
    ensures
        !(e is Fun) ==> exists|x: ExprV, b: bool|
            #![trigger p_apps(ts, x, b, pos + tokens_of(e, false).len())]
            erase(x) == erase(e) && p_expr(ts, pos) == p_apps(ts, x, b, pos + tokens_of(e, false).len()),
        ends_expr(ts, pos + tokens_of(e, false).len()) ==> (p_expr(ts, pos) matches Ok((e2, q)) && q == pos
            + tokens_of(e, false).len() && erase(e2) == erase(e)),
    decreases e, 0int,
{
    let t = tokens_of(e, false);
    let end = pos + t.len();
    lemma_tokens_first(e, false);
    assert(ts[pos] == t[0]);
    match e {
        ExprV::Var(_) => {
            assert(p_expr(ts, pos) == p_apps(ts, e, false, end));
        },
        ExprV::Fun(arg, body) => {
            let tb = tokens_of(*body, false);
            assert(t == seq![TokV::Lambda, TokV::Ident(arg), TokV::Dot] + tb);
            assert(ts[pos + 1] == t[1]);
            assert(ts[pos + 2] == t[2]);
            assert(ts.subrange(pos + 3, end) =~= t.subrange(3, t.len() as int));
            assert(t.subrange(3, t.len() as int) =~= tb);
            if ends_expr(ts, end) {
                lemma_parse_expr(ts, pos + 3, *body);
            }
        },
        ExprV::App(left, right, right_first) => {
            let lp = (*left) is Fun;
            let rp = arg_parens(*right, right_first);
            let tl = tokens_of(*left, lp);
            let tr = tokens_of(*right, rp);
            let m = pos + tl.len();
            assert(t == tl + tr);
            assert(ts.subrange(pos, m) =~= t.subrange(0, tl.len() as int));
            assert(t.subrange(0, tl.len() as int) =~= tl);
            assert(ts.subrange(m, end) =~= t.subrange(tl.len() as int, t.len() as int));
            assert(t.subrange(tl.len() as int, t.len() as int) =~= tr);
            let (l2, lpar) = if lp {
                lemma_parse_atom(ts, pos, *left, true);
                let (x, b, _) = p_atom(ts, pos)->Ok_0;
                assert(p_expr(ts, pos) == p_apps(ts, x, b, m));
                (x, b)
            } else {
                lemma_parse_expr(ts, pos, *left);
                let (x, b) = choose|x: ExprV, b: bool| #![trigger p_apps(ts, x, b, m)]
                    erase(x) == erase(*left) && p_expr(ts, pos) == p_apps(ts, x, b, m);
                (x, b)
            };
            lemma_tokens_first(*right, rp);
            assert(ts[m] == tr[0]);
            if !rp {
                assert((*right) is Var);
            }
            lemma_parse_atom(ts, m, *right, rp);
            let (r2, rpar, q) = p_atom(ts, m)->Ok_0;
            let x = ExprV::App(Box::new(l2), Box::new(r2), rpar && !lpar);
            assert(p_apps(ts, l2, lpar, m) == p_apps(ts, x, rpar, end));
            assert(erase(x) == erase(e));
        },
    }
}

/// Printing is faithful: the text that `Expr::show` writes for a term whose
/// names can be written parses back into the same tree; only the marks on
/// applications may differ.
pub proof fn lemma_show_parses_back(e: ExprV)
    requires
        writable(e),
    ensures
        parse_spec(show_spec(e, false)) matches Ok(e2) && erase(e2) == erase(e),
{
    let cs = show_spec(e, false);
    assert(cs.subrange(0, cs.len() as int) =~= cs);
    lemma_lex_written(cs, 0, e, false);
    let ts = tokens_of(e, false);
    assert(ts + Seq::<TokV>::empty() =~= ts);
    lemma_tokens_first(e, false);
    assert(ts.subrange(0, ts.len() as int) =~= ts);
    lemma_parse_expr(ts, 0, e);
}

/// Whether every name token of `ts` can be written.
pub open spec fn tokens_ok(ts: Seq<TokV>) -> bool {
    forall|k: int| 0 <= k < ts.len() ==> (#[trigger] ts[k] matches TokV::Ident(n) ==> is_name(n))
}

proof fn lemma_prepend_ok(ts: Seq<TokV>, r: Result<Seq<TokV>, Seq<char>>)
    requires
        tokens_ok(ts),
        r matches Ok(rest) ==> tokens_ok(rest),
    ensures
        prepend_tokens(ts, r) matches Ok(all) ==> tokens_ok(all),
{
    if let Ok(rest) = r {
        let all = ts + rest;
        assert forall|k: int| 0 <= k < all.len() implies (#[trigger] all[k] matches TokV::Ident(n) ==> is_name(n)) by {
            if k < ts.len() {
                assert(all[k] == ts[k]);
            } else {
                assert(all[k] == rest[k - ts.len()]);
            }
        }
    }
}

proof fn lemma_name_end_chars(cs: Seq<char>, i: int)
    requires
        0 <= i <= cs.len(),
    ensures
        i <= name_end(cs, i) <= cs.len(),
        forall|k: int| i <= k < name_end(cs, i) ==> is_name_char(#[trigger] cs[k]),
    decreases cs.len() - i,
{
    if i < cs.len() && is_name_char(cs[i]) {
        lemma_name_end_chars(cs, i + 1);
    }
}

/// Every name that lexing yields can be written.
#[verifier::rlimit(40)]
proof fn lemma_lex_tokens_ok(cs: Seq<char>, i: int)
    requires
        0 <= i,
    ensures
        lex_from(cs, i) matches Ok(ts) ==> tokens_ok(ts),
    decreases cs.len() - i,
{
    if i < cs.len() {
        let c = cs[i];
        if crate::text::is_space_char(c) {
            lemma_lex_tokens_ok(cs, i + 1);
        } else if c == '\\' || c == '.' || c == '(' || c == ')' {
            lemma_lex_tokens_ok(cs, i + 1);
            let t = if c == '.' {
                TokV::Dot
            } else if c == '(' {
                TokV::OpenParen
            } else if c == ')' {
                TokV::CloseParen
            } else {
                TokV::Lambda
            };
            lemma_prepend_ok(seq![t], lex_from(cs, i + 1));
        } else if is_name_start(c) {
            let j = name_end(cs, i + 1);
            lemma_name_end_chars(cs, i + 1);
            if i < j <= cs.len() {
                lemma_lex_tokens_ok(cs, j);
                let n = cs.subrange(i, j);
                assert forall|k: int| 1 <= k < n.len() implies is_name_char(#[trigger] n[k]) by {
                    assert(n[k] == cs[i + k]);
                }
                assert(n[0] == c);
                lemma_prepend_ok(seq![TokV::Ident(n)], lex_from(cs, j));
            }
        }
    }
}

proof fn lemma_p_expr_writable(ts: Seq<TokV>, pos: int)
    requires
        tokens_ok(ts),
    ensures
        p_expr(ts, pos) matches Ok((e, _)) ==> writable(e),
    decreases ts.len() - pos, 3int,
{
    lemma_p_atom_writable(ts, pos);
    if let Ok((left, lp, p)) = p_atom(ts, pos) {
        if pos < p <= ts.len() {
            lemma_p_apps_writable(ts, left, lp, p);
        }
    }
}

proof fn lemma_p_apps_writable(ts: Seq<TokV>, left: ExprV, lp: bool, p: int)
    requires
        tokens_ok(ts),
        writable(left),
    ensures
        p_apps(ts, left, lp, p) matches Ok((e, _)) ==> writable(e),
    decreases ts.len() - p, 2int,
{
    if 0 <= p < ts.len() && !(ts[p] is CloseParen) {
        lemma_p_atom_writable(ts, p);
        if let Ok((right, rp, q)) = p_atom(ts, p) {
            if p < q <= ts.len() {
                lemma_p_apps_writable(ts, ExprV::App(Box::new(left), Box::new(right), rp && !lp), rp, q);
            }
        }
    }
}

proof fn lemma_p_atom_writable(ts: Seq<TokV>, pos: int)
    requires
        tokens_ok(ts),
    ensures
        p_atom(ts, pos) matches Ok((e, _, _)) ==> writable(e),
    decreases ts.len() - pos, 1int,
{
    if 0 <= pos < ts.len() {
        assert(ts[pos] matches TokV::Ident(n) ==> is_name(n));
        match ts[pos] {
            TokV::Lambda => lemma_p_lambda_writable(ts, pos),
            TokV::OpenParen => lemma_p_expr_writable(ts, pos + 1),
            _ => {},
        }
    }
}

proof fn lemma_p_lambda_writable(ts: Seq<TokV>, pos: int)
    requires
        tokens_ok(ts),
    ensures
        p_lambda(ts, pos) matches Ok((e, _)) ==> writable(e),
    decreases ts.len() - pos, 0int,
{
    let q = pos + 1;
    if 0 <= pos && q < ts.len() {
        assert(ts[q] matches TokV::Ident(n) ==> is_name(n));
        if let TokV::Ident(arg) = ts[q] {
            let d = q + 1;
            if d < ts.len() && ts[d] is Dot {
                lemma_p_expr_writable(ts, d + 1);
            }
        }
    }
}

/// Every term that parsing yields has names that can be written.
pub proof fn lemma_parsed_is_writable(s: Seq<char>)
    ensures
        parse_spec(s) matches Ok(e) ==> writable(e),
{
    lemma_lex_tokens_ok(s, 0);
    if let Ok(ts) = lex_spec(s) {
        lemma_p_expr_writable(ts, 0);
    }
}

/// A parsed term prints as text that parses back into the same tree.
pub proof fn lemma_parse_show_parse(s: Seq<char>)
    ensures
        parse_spec(s) matches Ok(e) ==> (parse_spec(show_spec(e, false)) matches Ok(e2) && erase(e2) == erase(
            e,
        )),
{
    lemma_parsed_is_writable(s);
    if let Ok(e) = parse_spec(s) {
        lemma_show_parses_back(e);
    }
}

} // verus!
