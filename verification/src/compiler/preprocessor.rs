//! Source preprocessing: `#` comments, `:name body` macros, `@file.pl`
//! includes, and blank-line-separated expressions.
//!
//! The interpreter expands macros lazily during reduction. A compiler has no
//! reduction phase, so macros are expanded eagerly into the AST here, and a
//! macro that refers to itself is a compile error rather than a hang.
use vstd::prelude::*;

use crate::compiler::ast::{
    free_vars_spec, lemma_rename_size, names_of, rename, term_size, Expr, ExprV,
};
use crate::compiler::lexer::is_symbol_char;
use crate::interp::term::{fresh_var_with, fresh_with};
use crate::compiler::lexer::{parse_expr, parse_spec};
use crate::text::{
    append_str, chars_of, contains_text, int_text, is_space_char, is_whitespace,
    lemma_sorted_elements, push_char, push_int_text, sorted_elements, sorted_union, strictly_sorted,
    string_from_range, string_of, texts, trim, trim_range,
};

verus! {

/// Macro definitions in the order they were made: a later definition of a
/// name replaces an earlier one.
pub open spec fn macro_map(defs: Seq<(Seq<char>, Seq<char>)>) -> Map<Seq<char>, Seq<char>>
    decreases defs.len(),
{
    if defs.len() == 0 {
        Map::empty()
    } else {
        macro_map(defs.drop_last()).insert(defs.last().0, defs.last().1)
    }
}

pub open spec fn defs_view(defs: Seq<(String, String)>) -> Seq<(Seq<char>, Seq<char>)> {
    defs.map_values(|d: (String, String)| (d.0@, d.1@))
}

pub proof fn lemma_macro_map_finite(defs: Seq<(Seq<char>, Seq<char>)>)
    ensures
        macro_map(defs).dom().finite(),
    decreases defs.len(),
{
    if defs.len() > 0 {
        lemma_macro_map_finite(defs.drop_last());
    }
}

/// Looking up a name that none of `defs[i..]` defines finds the same as in
/// `defs[..i]`.
proof fn lemma_macro_map_prefix(defs: Seq<(Seq<char>, Seq<char>)>, i: int, name: Seq<char>)
    requires
        0 <= i <= defs.len(),
        forall|j: int| i <= j < defs.len() ==> (#[trigger] defs[j]).0 != name,
    ensures
        macro_map(defs).contains_key(name) == macro_map(defs.take(i)).contains_key(name),
        macro_map(defs).contains_key(name) ==> macro_map(defs)[name] == macro_map(defs.take(i))[name],
    decreases defs.len(),
{
    if i < defs.len() {
        assert(defs.drop_last().take(i) =~= defs.take(i));
        lemma_macro_map_prefix(defs.drop_last(), i, name);
    } else {
        assert(defs.take(i) =~= defs);
    }
}

/// `parts` joined with `sep` between consecutive ones.
pub open spec fn join(parts: Seq<Seq<char>>, sep: Seq<char>) -> Seq<char>
    decreases parts.len(),
{
    if parts.len() == 0 {
        Seq::empty()
    } else if parts.len() == 1 {
        parts[0]
    } else {
        join(parts.drop_last(), sep) + sep + parts.last()
    }
}

/// Error for a macro whose expansion reaches itself along `path`.
pub open spec fn cycle_msg(name: Seq<char>, path: Seq<Seq<char>>) -> Seq<char> {
    "macro '"@ + name + "' expands into itself ("@ + join(path, " -> "@)
        + "); recursion must go through a fixpoint combinator such as Z"@
}

/// Error for a macro body that does not parse.
pub open spec fn in_macro_msg(name: Seq<char>, e: Seq<char>) -> Seq<char> {
    "in macro '"@ + name + "': "@ + e
}

/// How many defined macros are not being expanded at the moment.
pub open spec fn pending(macros: Map<Seq<char>, Seq<char>>, active: Seq<Seq<char>>) -> nat {
    macros.dom().difference(active.to_set()).len()
}

/// Eager macro expansion of `e` with the definitions `macros`: the expanded
/// term, and the names that the macro bodies spliced into it leave free.
/// `active` holds the macros being expanded on the current path and `bound`
/// the lambda parameters in scope. A parameter shadows a macro of the same
/// name; a macro body is expanded with nothing bound, being closed over its
/// definition site; a parameter that would capture a free name of a spliced
/// body is renamed, by appending `rename_mark`, to a name that occurs nowhere in the
/// lambda's body nor among those free names; reaching a macro that is
/// already active is an error.
pub open spec fn expansion(
    macros: Map<Seq<char>, Seq<char>>,
    e: ExprV,
    active: Seq<Seq<char>>,
    bound: Seq<Seq<char>>,
) -> Result<(ExprV, Set<Seq<char>>), Seq<char>>
    decreases pending(macros, active), term_size(e),
    when macros.dom().finite()
{
    match e {
        ExprV::Num(n) => Ok((ExprV::Num(n), Set::empty())),
        ExprV::Var(name) => if bound.contains(name) || !macros.contains_key(name) {
            Ok((ExprV::Var(name), Set::empty()))
        } else if active.contains(name) {
            Err(cycle_msg(name, active.push(name)))
        } else {
            match parse_spec(macros[name]) {
                Err(m) => Err(in_macro_msg(name, m)),
                Ok(parsed) => {
                    proof {
                        active.lemma_push_to_set_commute(name);
                        macros.dom().lemma_set_insert_diff_decreases(active.to_set(), name);
                    }
                    match expansion(macros, parsed, active.push(name), Seq::empty()) {
                        Ok((x, _)) => Ok((x, free_vars_spec(x))),
                        Err(m) => Err(m),
                    }
                },
            }
        },
        ExprV::Fun(arg, body) => match expansion(macros, *body, active, bound.push(arg)) {
            Ok((b, imports)) => if !imports.contains(arg) {
                Ok((ExprV::Fun(arg, Box::new(b)), imports))
            } else {
                let fresh = fresh_with(sorted_elements(names_of(*body).union(imports)), arg, rename_mark(arg));
                proof {
                    lemma_rename_size(*body, arg, fresh);
                }
                match expansion(macros, rename(*body, arg, fresh), active, bound.push(fresh)) {
                    Ok((b2, imports2)) => Ok((ExprV::Fun(fresh, Box::new(b2)), imports2)),
                    Err(m) => Err(m),
                }
            },
            Err(m) => Err(m),
        },
        ExprV::App(left, right) => match expansion(macros, *left, active, bound) {
            Ok((l, il)) => match expansion(macros, *right, active, bound) {
                Ok((r, ir)) => Ok((ExprV::App(Box::new(l), Box::new(r)), il.union(ir))),
                Err(m) => Err(m),
            },
            Err(m) => Err(m),
        },
    }
}

/// The character appended to rename a parameter: `=` for a run of operator
/// characters, `'` otherwise, so that the new name is written like the old.
pub open spec fn rename_mark(name: Seq<char>) -> char {
    if name.len() > 0 && is_symbol_char(name[0]) {
        '='
    } else {
        '\''
    }
}

/// The term that eager macro expansion of `e` gives (see `expansion`).
pub open spec fn expand_spec(
    macros: Map<Seq<char>, Seq<char>>,
    e: ExprV,
    active: Seq<Seq<char>>,
    bound: Seq<Seq<char>>,
) -> Result<ExprV, Seq<char>> {
    match expansion(macros, e, active, bound) {
        Ok((x, _)) => Ok(x),
        Err(m) => Err(m),
    }
}

/// Relates an executable expansion with its imports to its specification.
pub open spec fn expansion_matches(
    r: Result<(Expr, Vec<String>), String>,
    s: Result<(ExprV, Set<Seq<char>>), Seq<char>>,
) -> bool {
    match (r, s) {
        (Ok((e, imp)), Ok((v, set))) => e@ == v && strictly_sorted(texts(imp@)) && texts(imp@).to_set() == set,
        (Err(e), Err(f)) => e@ == f,
        _ => false,
    }
}

/// The body that the definitions `macros` give the name `name`, if any: its
/// last definition.
pub(crate) fn lookup_macro<'a>(macros: &'a Vec<(String, String)>, name: &String) -> (r: Option<&'a String>)
    ensures
        match r {
            Some(b) => macro_map(defs_view(macros@)).contains_key(name@) && b@ == macro_map(
                defs_view(macros@),
            )[name@],
            None => !macro_map(defs_view(macros@)).contains_key(name@),
        },
{
    let ghost defs = defs_view(macros@);
    let mut i = macros.len();
    while i > 0
        invariant
            defs == defs_view(macros@),
            0 <= i <= defs.len(),
            forall|j: int| i <= j < defs.len() ==> (#[trigger] defs[j]).0 != name@,
        decreases i,
    {
        assert(defs[i - 1] == (macros@[i - 1].0@, macros@[i - 1].1@));
        if macros[i - 1].0 == *name {
            proof {
                lemma_macro_map_prefix(defs, i as int, name@);
                assert(defs.take(i as int).drop_last() =~= defs.take(i - 1));
            }
            return Some(&macros[i - 1].1);
        }
        i = i - 1;
    }
    proof {
        lemma_macro_map_prefix(defs, 0, name@);
    }
    None
}

/// The expressions and macros of a loaded compilation unit.
#[derive(Debug)]
pub struct Unit {
    /// Macro definitions, in the order they were made; a later definition of
    /// a name replaces an earlier one.
    pub macros: Vec<(String, String)>,
    pub exprs: Vec<SourceExpr>,
}

/// One blank-line-separated expression of the source.
#[derive(Debug)]
pub struct SourceExpr {
    /// The expression as written, used for the `Expr:` line at runtime.
    pub source: String,
    /// The file it comes from, as displayed in diagnostics.
    pub origin: String,
    /// Its first line, counting from 1.
    pub line: usize,
}

/// Relates an executable expansion to its specification.
pub open spec fn expand_matches(r: Result<Expr, String>, s: Result<ExprV, Seq<char>>) -> bool {
    match (r, s) {
        (Ok(e), Ok(v)) => e@ == v,
        (Err(e), Err(f)) => e@ == f,
        _ => false,
    }
}

/// Text of `parts` joined with `sep`.
fn join_names(parts: &Vec<String>, sep: &str) -> (r: String)
    ensures
        r@ == join(texts(parts@), sep@),
{
    let ghost ps = texts(parts@);
    let mut s = String::new();
    let mut i: usize = 0;
    while i < parts.len()
        invariant
            ps == texts(parts@),
            0 <= i <= parts@.len(),
            s@ == join(ps.take(i as int), sep@),
        decreases parts.len() - i,
    {
        if i > 0 {
            append_str(&mut s, sep);
        }
        append_str(&mut s, parts[i].as_str());
        assert(ps.take(i + 1).drop_last() =~= ps.take(i as int));
        assert(ps[i as int] == parts@[i as int]@);
        if i == 0 {
            assert(s@ =~= join(ps.take(1), sep@));
        }
        i = i + 1;
    }
    assert(ps.take(parts@.len() as int) =~= ps);
    s
}

impl Unit {
    pub open spec fn macros_spec(&self) -> Map<Seq<char>, Seq<char>> {
        macro_map(defs_view(self.macros@))
    }

    /// The body of macro `name`, if there is one: its last definition.
    pub fn macro_body(&self, name: &String) -> (r: Option<&String>)
        ensures
            match r {
                Some(b) => self.macros_spec().contains_key(name@) && b@ == self.macros_spec()[name@],
                None => !self.macros_spec().contains_key(name@),
            },
    {
        lookup_macro(&self.macros, name)
    }

    /// Substitute macro bodies into `expr` until no macro names remain.
    ///
    /// `active` holds the macros currently being expanded on this path, which
    /// is what turns `:loop loop` from an infinite expansion into an error.
    pub fn expand(&self, expr: &Expr) -> (r: Result<Expr, String>)
        ensures
            expand_matches(r, expand_spec(self.macros_spec(), expr@, Seq::empty(), Seq::empty())),
    {
        let mut active: Vec<String> = Vec::new();
        let mut bound: Vec<String> = Vec::new();
        assert(texts(active@) =~= Seq::<Seq<char>>::empty());
        proof {
            lemma_macro_map_finite(defs_view(self.macros@));
        }
        match self.expand_inner(expr, &mut active, &mut bound) {
            Ok((x, _)) => Ok(x),
            Err(e) => Err(e),
        }
    }

    fn expand_inner(&self, expr: &Expr, active: &mut Vec<String>, bound: &mut Vec<String>) -> (r:
        Result<(Expr, Vec<String>), String>)
        requires
            self.macros_spec().dom().finite(),
        ensures
            final(active)@ == old(active)@,
            final(bound)@ == old(bound)@,
            expansion_matches(
                r,
                expansion(self.macros_spec(), expr@, texts(old(active)@), texts(old(bound)@)),
            ),
        decreases pending(self.macros_spec(), texts(old(active)@)), term_size(expr@),
    {
        let ghost macros = self.macros_spec();
        match expr {
            Expr::Num(n) => {
                let none: Vec<String> = Vec::new();
                assert(texts(none@).to_set() =~= Set::<Seq<char>>::empty());
                Ok((Expr::Num(*n), none))
            },
            Expr::Var(name) => {
                let none: Vec<String> = Vec::new();
                assert(texts(none@).to_set() =~= Set::<Seq<char>>::empty());
                // A lambda parameter shadows a macro of the same name.
                if contains_text(bound, name) {
                    return Ok((Expr::Var(name.clone()), none));
                }
                let body = match self.macro_body(name) {
                    Some(b) => b,
                    None => {
                        return Ok((Expr::Var(name.clone()), none));
                    },
                };
                if contains_text(active, name) {
                    let mut path = Self::copy_names(active);
                    path.push(name.clone());
                    assert(texts(path@) =~= texts(active@).push(name@));
                    let mut e = string_of("macro '");
                    append_str(&mut e, name.as_str());
                    append_str(&mut e, "' expands into itself (");
                    let joined = join_names(&path, " -> ");
                    append_str(&mut e, joined.as_str());
                    append_str(
                        &mut e,
                        "); recursion must go through a fixpoint combinator such as Z",
                    );
                    return Err(e);
                }
                let parsed = match parse_expr(body.as_str()) {
                    Ok(p) => p,
                    Err(m) => {
                        let mut e = string_of("in macro '");
                        append_str(&mut e, name.as_str());
                        append_str(&mut e, "': ");
                        append_str(&mut e, m.as_str());
                        return Err(e);
                    },
                };
                // A macro body is closed over the definition site, not the use
                // site, so nothing bound out here shadows names inside it.
                let mut inner_bound: Vec<String> = Vec::new();
                assert(texts(inner_bound@) =~= Seq::<Seq<char>>::empty());
                let ghost active0 = active@;
                active.push(name.clone());
                assert(texts(active@) =~= texts(active0).push(name@));
                proof {
                    texts(active0).lemma_push_to_set_commute(name@);
                    macros.dom().lemma_set_insert_diff_decreases(texts(active0).to_set(), name@);
                }
                let expanded = self.expand_inner(&parsed, active, &mut inner_bound);
                active.pop();
                assert(active@ =~= active0);
                match expanded {
                    Ok((x, _)) => {
                        let free = x.free_vars();
                        Ok((x, free))
                    },
                    Err(e) => Err(e),
                }
            },
            Expr::Fun { arg, body } => {
                let ghost bound0 = bound@;
                bound.push(arg.clone());
                assert(texts(bound@) =~= texts(bound0).push(arg@));
                let first = self.expand_inner(body, active, bound);
                bound.pop();
                assert(bound@ =~= bound0);
                let (b, imports) = first?;
                if !contains_text(&imports, arg) {
                    return Ok((Expr::Fun { arg: arg.clone(), body: Box::new(b) }, imports));
                }
                // The parameter would capture a free name of a spliced macro
                // body: rename it to a name that occurs nowhere around.
                let mut avoid = body.names();
                sorted_union(&mut avoid, &imports);
                proof {
                    lemma_sorted_elements(texts(avoid@));
                }
                let fresh = fresh_var_with(&avoid, arg, Self::mark_for(arg));
                let renamed = body.rename(arg, &fresh);
                proof {
                    lemma_rename_size(body@, arg@, fresh@);
                }
                bound.push(fresh.clone());
                assert(texts(bound@) =~= texts(bound0).push(fresh@));
                let second = self.expand_inner(&renamed, active, bound);
                bound.pop();
                assert(bound@ =~= bound0);
                let (b2, imports2) = second?;
                Ok((Expr::Fun { arg: fresh, body: Box::new(b2) }, imports2))
            },
            Expr::App(left, right) => {
                let (l, mut il) = self.expand_inner(left, active, bound)?;
                let (r, ir) = self.expand_inner(right, active, bound)?;
                sorted_union(&mut il, &ir);
                Ok((Expr::App(Box::new(l), Box::new(r)), il))
            },
        }
    }

    /// The character appended to rename the parameter `arg`.
    fn mark_for(arg: &String) -> (c: char)
        ensures
            c == rename_mark(arg@),
    {
        let cs = chars_of(arg.as_str());
        if cs.len() > 0 && (cs[0] == '+' || cs[0] == '-' || cs[0] == '*' || cs[0] == '/' || cs[0] == '%'
            || cs[0] == '<' || cs[0] == '>' || cs[0] == '=') {
            '='
        } else {
            '\''
        }
    }

    fn copy_names(v: &Vec<String>) -> (r: Vec<String>)
        ensures
            r@ == v@,
    {
        let mut r: Vec<String> = Vec::new();
        let mut i: usize = 0;
        while i < v.len()
            invariant
                0 <= i <= v@.len(),
                r@ == v@.take(i as int),
            decreases v.len() - i,
        {
            r.push(v[i].clone());
            assert(r@ =~= v@.take(i + 1));
            i = i + 1;
        }
        assert(v@.take(v@.len() as int) =~= v@);
        r
    }
}


proof fn lemma_expand_free_vars(
    macros: Map<Seq<char>, Seq<char>>,
    e: ExprV,
    active: Seq<Seq<char>>,
    bound: Seq<Seq<char>>,
)
    requires
        macros.dom().finite(),
    ensures
        expansion(macros, e, active, bound) matches Ok((r, _)) ==> forall|x: Seq<char>|
            #[trigger] free_vars_spec(r).contains(x) ==> !macros.contains_key(x) || bound.contains(x),
    decreases pending(macros, active), term_size(e),
{
    match e {
        ExprV::Var(name) => {
            if bound.contains(name) || !macros.contains_key(name) {
                assert forall|x: Seq<char>| #[trigger] free_vars_spec(ExprV::Var(name)).contains(x)
                    implies !macros.contains_key(x) || bound.contains(x) by {
                    assert(x == name);
                }
            } else if active.contains(name) {
            } else {
                if let Ok(parsed) = parse_spec(macros[name]) {
                    active.lemma_push_to_set_commute(name);
                    macros.dom().lemma_set_insert_diff_decreases(active.to_set(), name);
                    lemma_expand_free_vars(macros, parsed, active.push(name), Seq::empty());
                    if let Ok((r, _)) = expansion(macros, parsed, active.push(name), Seq::empty()) {
                        assert forall|x: Seq<char>| #[trigger] free_vars_spec(r).contains(x)
                            implies !macros.contains_key(x) || bound.contains(x) by {
                            assert(!Seq::<Seq<char>>::empty().contains(x));
                        }
                    }
                }
            }
        },
        ExprV::Fun(arg, body) => {
            lemma_expand_free_vars(macros, *body, active, bound.push(arg));
            if let Ok((b, imports)) = expansion(macros, *body, active, bound.push(arg)) {
                if !imports.contains(arg) {
                    assert forall|x: Seq<char>| #[trigger] free_vars_spec(ExprV::Fun(arg, Box::new(b))).contains(x)
                        implies !macros.contains_key(x) || bound.contains(x) by {
                        assert(free_vars_spec(b).contains(x) && x != arg);
                        if bound.push(arg).contains(x) {
                            let k = choose|k: int| 0 <= k < bound.push(arg).len() && bound.push(arg)[k] == x;
                            assert(k < bound.len());
                            assert(bound[k] == x);
                        }
                    }
                } else {
                    let fresh = fresh_with(sorted_elements(names_of(*body).union(imports)), arg, rename_mark(arg));
                    lemma_rename_size(*body, arg, fresh);
                    let rb = rename(*body, arg, fresh);
                    lemma_expand_free_vars(macros, rb, active, bound.push(fresh));
                    if let Ok((b2, _)) = expansion(macros, rb, active, bound.push(fresh)) {
                        assert forall|x: Seq<char>| #[trigger] free_vars_spec(ExprV::Fun(fresh, Box::new(b2))).contains(x)
                            implies !macros.contains_key(x) || bound.contains(x) by {
                            assert(free_vars_spec(b2).contains(x) && x != fresh);
                            if bound.push(fresh).contains(x) {
                                let k = choose|k: int| 0 <= k < bound.push(fresh).len() && bound.push(fresh)[k] == x;
                                assert(k < bound.len());
                                assert(bound[k] == x);
                            }
                        }
                    }
                }
            }
        },
        ExprV::App(left, right) => {
            lemma_expand_free_vars(macros, *left, active, bound);
            lemma_expand_free_vars(macros, *right, active, bound);
            if let Ok((l, _)) = expansion(macros, *left, active, bound) {
                if let Ok((r, _)) = expansion(macros, *right, active, bound) {
                    assert(free_vars_spec(ExprV::App(Box::new(l), Box::new(r))) == free_vars_spec(l).union(free_vars_spec(r)));
                }
            }
        },
        _ => {},
    }
}

/// Eager expansion leaves no macro behind: whenever expanding `e` with the
/// definitions `macros` succeeds, no free variable of the result names a
/// macro.
pub proof fn lemma_expansion_removes_macros(macros: Map<Seq<char>, Seq<char>>, e: ExprV)
    requires
        macros.dom().finite(),
    ensures
        expand_spec(macros, e, Seq::empty(), Seq::empty()) matches Ok(r) ==> forall|x: Seq<char>|
            #[trigger] free_vars_spec(r).contains(x) ==> !macros.contains_key(x),
{
    lemma_expand_free_vars(macros, e, Seq::empty(), Seq::empty());
}


/// Expansion leaves alone every name that a lambda in scope binds or that no
/// macro defines: where each free variable of `e` is in `bound` (at any
/// depth, not only the innermost parameter) or names no macro, expanding `e`
/// gives `e` back unchanged and splices nothing in. So a parameter shadows a
/// macro of its name throughout its body, inner lambdas included.
pub proof fn lemma_expansion_keeps_shadowed(
    macros: Map<Seq<char>, Seq<char>>,
    e: ExprV,
    active: Seq<Seq<char>>,
    bound: Seq<Seq<char>>,
)
    requires
        macros.dom().finite(),
        forall|x: Seq<char>| #[trigger] free_vars_spec(e).contains(x) ==> !macros.contains_key(x) || bound.contains(x),
    ensures
        expansion(macros, e, active, bound) == Ok::<(ExprV, Set<Seq<char>>), Seq<char>>((e, Set::empty())),
    decreases e,
{
    match e {
        ExprV::Var(name) => {
            assert(free_vars_spec(e).contains(name));
        },
        ExprV::Num(_) => {},
        ExprV::Fun(arg, body) => {
            assert forall|x: Seq<char>| #[trigger] free_vars_spec(*body).contains(x)
                implies !macros.contains_key(x) || bound.push(arg).contains(x) by {
                if x == arg {
                    assert(bound.push(arg)[bound.len() as int] == x);
                } else {
                    assert(free_vars_spec(e).contains(x));
                    if bound.contains(x) {
                        let k = choose|k: int| 0 <= k < bound.len() && bound[k] == x;
                        assert(bound.push(arg)[k] == x);
                    }
                }
            }
            lemma_expansion_keeps_shadowed(macros, *body, active, bound.push(arg));
            assert(!Set::<Seq<char>>::empty().contains(arg));
        },
        ExprV::App(left, right) => {
            assert forall|x: Seq<char>| #[trigger] free_vars_spec(*left).contains(x)
                implies !macros.contains_key(x) || bound.contains(x) by {
                assert(free_vars_spec(e).contains(x));
            }
            assert forall|x: Seq<char>| #[trigger] free_vars_spec(*right).contains(x)
                implies !macros.contains_key(x) || bound.contains(x) by {
                assert(free_vars_spec(e).contains(x));
            }
            lemma_expansion_keeps_shadowed(macros, *left, active, bound);
            lemma_expansion_keeps_shadowed(macros, *right, active, bound);
            assert(Set::<Seq<char>>::empty().union(Set::<Seq<char>>::empty()) =~= Set::<Seq<char>>::empty());
        },
    }
}

/// A macro body is closed over its definition site: what a macro name that
/// no lambda in scope binds expands to does not depend on which other names
/// the lambdas around it bind.
pub proof fn lemma_macro_expansion_ignores_scope(
    macros: Map<Seq<char>, Seq<char>>,
    name: Seq<char>,
    active: Seq<Seq<char>>,
    bound1: Seq<Seq<char>>,
    bound2: Seq<Seq<char>>,
)
    requires
        macros.dom().finite(),
        !bound1.contains(name),
        !bound2.contains(name),
    ensures
        expansion(macros, ExprV::Var(name), active, bound1) == expansion(macros, ExprV::Var(name), active, bound2),
{
}

/// A name bound by any enclosing lambda is never replaced by a macro body:
/// expanding the variable `name` where `bound` holds it gives the variable.
pub proof fn lemma_bound_name_not_expanded(
    macros: Map<Seq<char>, Seq<char>>,
    name: Seq<char>,
    active: Seq<Seq<char>>,
    bound: Seq<Seq<char>>,
)
    requires
        macros.dom().finite(),
        bound.contains(name),
    ensures
        expansion(macros, ExprV::Var(name), active, bound)
            == Ok::<(ExprV, Set<Seq<char>>), Seq<char>>((ExprV::Var(name), Set::empty())),
{
    assert forall|x: Seq<char>| #[trigger] free_vars_spec(ExprV::Var(name)).contains(x)
        implies !macros.contains_key(x) || bound.contains(x) by {
        assert(x == name);
    }
    lemma_expansion_keeps_shadowed(macros, ExprV::Var(name), active, bound);
}


proof fn lemma_push_contains(bound: Seq<Seq<char>>, a: Seq<char>, n: Seq<char>)
    ensures
        bound.push(a).contains(n) == (n == a || bound.contains(n)),
{
    if bound.push(a).contains(n) {
        let k = choose|k: int| 0 <= k < bound.push(a).len() && bound.push(a)[k] == n;
        if k < bound.len() {
            assert(bound[k] == n);
        }
    }
    if bound.contains(n) {
        let k = choose|k: int| 0 <= k < bound.len() && bound[k] == n;
        assert(bound.push(a)[k] == n);
    }
    if n == a {
        assert(bound.push(a)[bound.len() as int] == n);
    }
}

proof fn lemma_names_of(e: ExprV)
    ensures
        names_of(e).finite(),
        free_vars_spec(e).subset_of(names_of(e)),
    decreases e,
{
    match e {
        ExprV::Fun(_, body) => lemma_names_of(*body),
        ExprV::App(left, right) => {
            lemma_names_of(*left);
            lemma_names_of(*right);
        },
        _ => {},
    }
}

/// Renaming the free occurrences of `a` to a name `f` that does not occur
/// in `b` leaves the other free names as they are.
proof fn lemma_rename_free_vars(b: ExprV, a: Seq<char>, f: Seq<char>)
    requires
        !names_of(b).contains(f),
    ensures
        free_vars_spec(rename(b, a, f)).remove(f) == free_vars_spec(b).remove(a),
    decreases b,
{
    lemma_names_of(b);
    match b {
        ExprV::Var(n) => {
            assert(free_vars_spec(rename(b, a, f)).remove(f) =~= free_vars_spec(b).remove(a));
        },
        ExprV::Num(_) => {
            assert(free_vars_spec(rename(b, a, f)).remove(f) =~= free_vars_spec(b).remove(a));
        },
        ExprV::Fun(y, body) => {
            if y == a {
                assert(free_vars_spec(rename(b, a, f)).remove(f) =~= free_vars_spec(b).remove(a));
            } else {
                lemma_rename_free_vars(*body, a, f);
                assert(free_vars_spec(rename(b, a, f)) == free_vars_spec(rename(*body, a, f)).remove(y));
                assert(free_vars_spec(rename(b, a, f)).remove(f) =~= free_vars_spec(rename(*body, a, f)).remove(
                    f,
                ).remove(y));
                assert(free_vars_spec(b).remove(a) =~= free_vars_spec(*body).remove(a).remove(y));
            }
        },
        ExprV::App(left, right) => {
            lemma_rename_free_vars(*left, a, f);
            lemma_rename_free_vars(*right, a, f);
            assert(free_vars_spec(rename(b, a, f)).remove(f) =~= free_vars_spec(rename(*left, a, f)).remove(f).union(
                free_vars_spec(rename(*right, a, f)).remove(f),
            ));
            assert(free_vars_spec(b).remove(a) =~= free_vars_spec(*left).remove(a).union(
                free_vars_spec(*right).remove(a),
            ));
        },
    }
}

/// The free names that expanding the macro name `n` splices in: those of
/// its expanded body (none for a name that is no macro).
spec fn spliced_names(macros: Map<Seq<char>, Seq<char>>, n: Seq<char>, active: Seq<Seq<char>>) -> Set<
    Seq<char>,
>
    recommends
        macros.dom().finite(),
{
    match expansion(macros, ExprV::Var(n), active, Seq::empty()) {
        Ok((_, imp)) => imp,
        Err(_) => Set::empty(),
    }
}

/// The names spliced in by the macro names free in `e` and bound by no
/// lambda in `bound`.
spec fn imports_of(
    macros: Map<Seq<char>, Seq<char>>,
    e: ExprV,
    active: Seq<Seq<char>>,
    bound: Seq<Seq<char>>,
) -> Set<Seq<char>> {
    Set::new(
        |y: Seq<char>|
            exists|n: Seq<char>|
                free_vars_spec(e).contains(n) && !bound.contains(n) && #[trigger] spliced_names(macros, n, active).contains(y),
    )
}

proof fn lemma_imports_of_renamed(
    macros: Map<Seq<char>, Seq<char>>,
    body: ExprV,
    arg: Seq<char>,
    fresh: Seq<char>,
    active: Seq<Seq<char>>,
    bound: Seq<Seq<char>>,
)
    requires
        !names_of(body).contains(fresh),
    ensures
        imports_of(macros, rename(body, arg, fresh), active, bound.push(fresh)) == imports_of(
            macros,
            body,
            active,
            bound.push(arg),
        ),
{
    let rb = rename(body, arg, fresh);
    lemma_rename_free_vars(body, arg, fresh);
    assert forall|n: Seq<char>|
        (free_vars_spec(rb).contains(n) && !bound.push(fresh).contains(n)) == (free_vars_spec(body).contains(n)
            && !bound.push(arg).contains(n)) by {
        if n != fresh && n != arg {
            assert(free_vars_spec(rb).remove(fresh).contains(n) == free_vars_spec(rb).contains(n));
            assert(free_vars_spec(body).remove(arg).contains(n) == free_vars_spec(body).contains(n));
            assert(bound.push(fresh).contains(n) == bound.contains(n)) by {
                if bound.push(fresh).contains(n) {
                    let k = choose|k: int| 0 <= k < bound.push(fresh).len() && bound.push(fresh)[k] == n;
                    assert(bound[k] == n);
                }
                if bound.contains(n) {
                    let k = choose|k: int| 0 <= k < bound.len() && bound[k] == n;
                    assert(bound.push(fresh)[k] == n);
                }
            }
            assert(bound.push(arg).contains(n) == bound.contains(n)) by {
                if bound.push(arg).contains(n) {
                    let k = choose|k: int| 0 <= k < bound.push(arg).len() && bound.push(arg)[k] == n;
                    assert(bound[k] == n);
                }
                if bound.contains(n) {
                    let k = choose|k: int| 0 <= k < bound.len() && bound[k] == n;
                    assert(bound.push(arg)[k] == n);
                }
            }
        } else if n == fresh {
            assert(bound.push(fresh)[bound.len() as int] == n);
            lemma_names_of(body);
        } else {
            assert(bound.push(arg)[bound.len() as int] == n);
            if fresh != arg {
                assert(!free_vars_spec(rb).remove(fresh).contains(arg));
            }
        }
    }
    assert(imports_of(macros, rb, active, bound.push(fresh)) =~= imports_of(macros, body, active, bound.push(arg)));
}


/// What expansion reports as spliced in is exactly what the macro names free
/// in `e` (and bound by no lambda around it) splice in, and a finite set.
proof fn lemma_expansion_imports(
    macros: Map<Seq<char>, Seq<char>>,
    e: ExprV,
    active: Seq<Seq<char>>,
    bound: Seq<Seq<char>>,
)
    requires
        macros.dom().finite(),
    ensures
        expansion(macros, e, active, bound) matches Ok((_, imp)) ==> imp.finite() && imp == imports_of(
            macros,
            e,
            active,
            bound,
        ),
    decreases term_size(e),
{
    match e {
        ExprV::Num(_) => {
            assert(imports_of(macros, e, active, bound) =~= Set::empty());
        },
        ExprV::Var(name) => {
            if let Ok((x, imp)) = expansion(macros, e, active, bound) {
                if bound.contains(name) || !macros.contains_key(name) {
                    assert forall|y: Seq<char>| !imports_of(macros, e, active, bound).contains(y) by {
                        if imports_of(macros, e, active, bound).contains(y) {
                            let n = choose|n: Seq<char>|
                                free_vars_spec(e).contains(n) && !bound.contains(n) && #[trigger] spliced_names(
                                    macros,
                                    n,
                                    active,
                                ).contains(y);
                            assert(n == name);
                        }
                    }
                    assert(imports_of(macros, e, active, bound) =~= imp);
                } else {
                    lemma_macro_expansion_ignores_scope(macros, name, active, bound, Seq::empty());
                    crate::compiler::closure::lemma_free_vars_finite(x);
                    assert(spliced_names(macros, name, active) == imp);
                    assert forall|y: Seq<char>| imp.contains(y) implies imports_of(macros, e, active, bound).contains(y) by {
                        assert(free_vars_spec(e).contains(name));
                        assert(spliced_names(macros, name, active).contains(y));
                    }
                    assert forall|y: Seq<char>| imports_of(macros, e, active, bound).contains(y) implies imp.contains(y) by {
                        let n = choose|n: Seq<char>|
                            free_vars_spec(e).contains(n) && !bound.contains(n) && #[trigger] spliced_names(
                                macros,
                                n,
                                active,
                            ).contains(y);
                        assert(n == name);
                    }
                    assert(imports_of(macros, e, active, bound) =~= imp);
                }
            }
        },
        ExprV::App(left, right) => {
            lemma_expansion_imports(macros, *left, active, bound);
            lemma_expansion_imports(macros, *right, active, bound);
            if let Ok((_, imp)) = expansion(macros, e, active, bound) {
                let il = imports_of(macros, *left, active, bound);
                let ir = imports_of(macros, *right, active, bound);
                assert forall|y: Seq<char>| il.union(ir).contains(y) implies imports_of(macros, e, active, bound).contains(y) by {
                    if il.contains(y) {
                        let n = choose|n: Seq<char>|
                            free_vars_spec(*left).contains(n) && !bound.contains(n) && #[trigger] spliced_names(
                                macros,
                                n,
                                active,
                            ).contains(y);
                        assert(free_vars_spec(e).contains(n));
                    } else {
                        let n = choose|n: Seq<char>|
                            free_vars_spec(*right).contains(n) && !bound.contains(n) && #[trigger] spliced_names(
                                macros,
                                n,
                                active,
                            ).contains(y);
                        assert(free_vars_spec(e).contains(n));
                    }
                }
                assert forall|y: Seq<char>| imports_of(macros, e, active, bound).contains(y) implies il.union(ir).contains(y) by {
                    let n = choose|n: Seq<char>|
                        free_vars_spec(e).contains(n) && !bound.contains(n) && #[trigger] spliced_names(
                            macros,
                            n,
                            active,
                        ).contains(y);
                    if free_vars_spec(*left).contains(n) {
                        assert(il.contains(y));
                    } else {
                        assert(ir.contains(y));
                    }
                }
                assert(imports_of(macros, e, active, bound) =~= imp);
            }
        },
        ExprV::Fun(arg, body) => {
            lemma_expansion_imports(macros, *body, active, bound.push(arg));
            let ib = imports_of(macros, *body, active, bound.push(arg));
            assert forall|n: Seq<char>|
                (free_vars_spec(*body).contains(n) && !bound.push(arg).contains(n)) == (free_vars_spec(e).contains(n)
                    && !bound.contains(n)) by {
                if n != arg {
                    assert(bound.push(arg).contains(n) == bound.contains(n)) by {
                        if bound.push(arg).contains(n) {
                            let k = choose|k: int| 0 <= k < bound.push(arg).len() && bound.push(arg)[k] == n;
                            assert(bound[k] == n);
                        }
                        if bound.contains(n) {
                            let k = choose|k: int| 0 <= k < bound.len() && bound[k] == n;
                            assert(bound.push(arg)[k] == n);
                        }
                    }
                } else {
                    assert(bound.push(arg)[bound.len() as int] == n);
                }
            }
            assert forall|y: Seq<char>| ib.contains(y) == imports_of(macros, e, active, bound).contains(y) by {
                if ib.contains(y) {
                    let n = choose|n: Seq<char>|
                        free_vars_spec(*body).contains(n) && !bound.push(arg).contains(n) && #[trigger] spliced_names(
                            macros,
                            n,
                            active,
                        ).contains(y);
                    lemma_push_contains(bound, arg, n);
                    assert(free_vars_spec(e).contains(n) && !bound.contains(n));
                }
                if imports_of(macros, e, active, bound).contains(y) {
                    let n = choose|n: Seq<char>|
                        free_vars_spec(e).contains(n) && !bound.contains(n) && #[trigger] spliced_names(
                            macros,
                            n,
                            active,
                        ).contains(y);
                    lemma_push_contains(bound, arg, n);
                    assert(free_vars_spec(*body).contains(n) && !bound.push(arg).contains(n));
                }
            }
            assert(ib =~= imports_of(macros, e, active, bound));
            if let Ok((b, imports)) = expansion(macros, *body, active, bound.push(arg)) {
                if imports.contains(arg) {
                    let fresh = fresh_with(sorted_elements(names_of(*body).union(imports)), arg, rename_mark(arg));
                    lemma_names_of(*body);
                    crate::text::lemma_sorted_elements_exist(names_of(*body).union(imports));
                    crate::interp::term::lemma_fresh_with(sorted_elements(names_of(*body).union(imports)), arg, rename_mark(arg));
                    assert(imports.finite());
                    assert(!names_of(*body).union(imports).contains(fresh));
                    lemma_rename_size(*body, arg, fresh);
                    let rb = rename(*body, arg, fresh);
                    lemma_expansion_imports(macros, rb, active, bound.push(fresh));
                    lemma_imports_of_renamed(macros, *body, arg, fresh, active, bound);
                }
            }
        },
    }
}

/// Macro expansion is capture-avoiding: whenever expanding `e` succeeds,
/// every free name of a spliced macro body stays free in the result; no
/// lambda of the use site captures it (a parameter that would is renamed).
pub proof fn lemma_expansion_avoids_capture(
    macros: Map<Seq<char>, Seq<char>>,
    e: ExprV,
    active: Seq<Seq<char>>,
    bound: Seq<Seq<char>>,
)
    requires
        macros.dom().finite(),
    ensures
        expansion(macros, e, active, bound) matches Ok((r, imp)) ==> imp.subset_of(free_vars_spec(r)),
    decreases term_size(e),
{
    match e {
        ExprV::App(left, right) => {
            lemma_expansion_avoids_capture(macros, *left, active, bound);
            lemma_expansion_avoids_capture(macros, *right, active, bound);
        },
        ExprV::Fun(arg, body) => {
            lemma_expansion_avoids_capture(macros, *body, active, bound.push(arg));
            if let Ok((b, imports)) = expansion(macros, *body, active, bound.push(arg)) {
                if imports.contains(arg) {
                    let fresh = fresh_with(sorted_elements(names_of(*body).union(imports)), arg, rename_mark(arg));
                    lemma_names_of(*body);
                    lemma_expansion_imports(macros, *body, active, bound.push(arg));
                    crate::text::lemma_sorted_elements_exist(names_of(*body).union(imports));
                    crate::interp::term::lemma_fresh_with(sorted_elements(names_of(*body).union(imports)), arg, rename_mark(arg));
                    assert(!names_of(*body).union(imports).contains(fresh));
                    lemma_rename_size(*body, arg, fresh);
                    let rb = rename(*body, arg, fresh);
                    lemma_expansion_avoids_capture(macros, rb, active, bound.push(fresh));
                    lemma_expansion_imports(macros, rb, active, bound.push(fresh));
                    lemma_imports_of_renamed(macros, *body, arg, fresh, active, bound);
                }
            }
        },
        _ => {},
    }
}


/// Index of the first `#` of `line`, or its length.
pub open spec fn comment_start(line: Seq<char>, i: int) -> int
    decreases line.len() - i,
{
    if i < 0 || i >= line.len() {
        i
    } else if line[i] == '#' {
        i
    } else {
        comment_start(line, i + 1)
    }
}

/// `line` without everything from its first `#` onward.
pub open spec fn strip_comment_spec(line: Seq<char>) -> Seq<char> {
    line.take(comment_start(line, 0))
}

proof fn lemma_comment_start(line: Seq<char>, i: int)
    requires
        0 <= i <= line.len(),
    ensures
        i <= comment_start(line, i) <= line.len(),
    decreases line.len() - i,
{
    if i < line.len() && line[i] != '#' {
        lemma_comment_start(line, i + 1);
    }
}

/// Strip everything from the first `#` onward.
pub fn strip_comment(line: &str) -> (r: String)
    ensures
        r@ == strip_comment_spec(line@),
{
    let cs = chars_of(line);
    let mut i: usize = 0;
    while i < cs.len() && cs[i] != '#'
        invariant
            cs@ == line@,
            0 <= i <= cs@.len(),
            comment_start(cs@, 0) == comment_start(cs@, i as int),
        decreases cs.len() - i,
    {
        i = i + 1;
    }
    proof {
        lemma_comment_start(cs@, i as int);
    }
    let r = string_from_range(&cs, 0, i);
    assert(cs@.subrange(0, i as int) =~= cs@.take(i as int));
    r
}

/// Index of the first white-space character of `s` at or after `i`, or the
/// length of `s`.
pub open spec fn space_start(s: Seq<char>, i: int) -> int
    decreases s.len() - i,
{
    if i < 0 || i >= s.len() {
        i
    } else if is_space_char(s[i]) {
        i
    } else {
        space_start(s, i + 1)
    }
}

proof fn lemma_space_start(s: Seq<char>, i: int)
    requires
        0 <= i <= s.len(),
    ensures
        i <= space_start(s, i) <= s.len(),
        space_start(s, i) < s.len() ==> is_space_char(s[space_start(s, i)]),
    decreases s.len() - i,
{
    if i < s.len() && !is_space_char(s[i]) {
        lemma_space_start(s, i + 1);
    }
}

/// Parse the text after the `:` of a macro definition line: the macro's name
/// and body, split at the first white space, or the error.
pub open spec fn macro_def_spec(rest: Seq<char>) -> Result<(Seq<char>, Seq<char>), Seq<char>> {
    let r = trim(rest);
    let k = space_start(r, 0);
    if k >= r.len() {
        Err("macro definition must be ':name body'"@)
    } else {
        let name = trim(r.take(k));
        let body = trim(r.skip(k + 1));
        if name.len() == 0 || body.len() == 0 {
            Err("macro name and body must both be non-empty"@)
        } else {
            match parse_spec(body) {
                Err(e) => Err(in_macro_msg(name, e)),
                Ok(_) => Ok((name, body)),
            }
        }
    }
}

/// A source expression, as text.
pub struct SourceV {
    pub source: Seq<char>,
    pub origin: Seq<char>,
    pub line: int,
}

impl View for SourceExpr {
    type V = SourceV;

    open spec fn view(&self) -> SourceV {
        SourceV { source: self.source@, origin: self.origin@, line: self.line as int }
    }
}

pub open spec fn sources_view(v: Seq<SourceExpr>) -> Seq<SourceV> {
    v.map_values(|e: SourceExpr| e@)
}

/// The expressions after the pending text `current`, which starts at line
/// `line`, is closed: it is added unless it is blank.
pub open spec fn flush_spec(exprs: Seq<SourceV>, current: Seq<char>, line: int, origin: Seq<char>) -> Seq<SourceV> {
    if trim(current).len() == 0 {
        exprs
    } else {
        exprs.push(SourceV { source: current, origin, line })
    }
}

/// Where loading stopped: at the end of the text, or at an `@file.pl`
/// include on line `line`, to be resumed at line index `next`.
pub enum StepV {
    Done,
    Include(Seq<char>, int, int),
}

/// The state of loading: macro definitions and expressions so far.
pub struct LoadV {
    pub macros: Seq<(Seq<char>, Seq<char>)>,
    pub exprs: Seq<SourceV>,
}

/// Error on line `line_no` of `origin`.
pub open spec fn located(origin: Seq<char>, line_no: int, e: Seq<char>) -> Seq<char> {
    origin + ":"@ + int_text(line_no) + ": "@ + e
}

/// Text of `s` with `t` at its end.
pub open spec fn ends_with(s: Seq<char>, t: Seq<char>) -> bool {
    t.len() <= s.len() && s.skip(s.len() - t.len()) == t
}

/// Loading lines `i..` of a file with display name `origin`, with the text
/// `current` of the expression being accumulated since line `cur_line`: blank
/// lines (once comments are stripped) end an expression, `@file.pl` lines stop
/// for an include, `:name body` lines define macros, and other lines are
/// joined to the current expression with a space.
pub open spec fn load_spec(
    lines: Seq<Seq<char>>,
    i: int,
    current: Seq<char>,
    cur_line: int,
    origin: Seq<char>,
    st: LoadV,
) -> (LoadV, Result<StepV, Seq<char>>)
    decreases lines.len() - i,
{
    if i < 0 || i >= lines.len() {
        (LoadV { macros: st.macros, exprs: flush_spec(st.exprs, current, cur_line, origin) }, Ok(StepV::Done))
    } else {
        let line_no = i + 1;
        let line = trim(strip_comment_spec(lines[i]));
        let flushed = LoadV { macros: st.macros, exprs: flush_spec(st.exprs, current, cur_line, origin) };
        if line.len() == 0 {
            load_spec(lines, i + 1, Seq::empty(), cur_line, origin, flushed)
        } else if line[0] == '@' {
            let name = trim(line.skip(1));
            if !ends_with(name, ".pl"@) {
                (flushed, Err(located(origin, line_no, "include file must end in .pl: "@ + name)))
            } else {
                (flushed, Ok(StepV::Include(name, line_no, i + 1)))
            }
        } else if line[0] == ':' {
            match macro_def_spec(line.skip(1)) {
                Err(e) => (flushed, Err(located(origin, line_no, e))),
                Ok((name, body)) => load_spec(
                    lines,
                    i + 1,
                    Seq::empty(),
                    cur_line,
                    origin,
                    LoadV { macros: flushed.macros.push((name, body)), exprs: flushed.exprs },
                ),
            }
        } else if current.len() == 0 {
            load_spec(lines, i + 1, line, line_no, origin, st)
        } else {
            load_spec(lines, i + 1, current + " "@ + line, cur_line, origin, st)
        }
    }
}

/// With nothing pending, the line recorded for the pending text plays no part.
proof fn lemma_load_line_irrelevant(
    lines: Seq<Seq<char>>,
    i: int,
    c1: int,
    c2: int,
    origin: Seq<char>,
    st: LoadV,
)
    ensures
        load_spec(lines, i, Seq::empty(), c1, origin, st) == load_spec(lines, i, Seq::empty(), c2, origin, st),
    decreases lines.len() - i,
{
    let e = Seq::<char>::empty();
    assert(trim(e).len() == 0);
    assert(flush_spec(st.exprs, e, c1, origin) == st.exprs);
    assert(flush_spec(st.exprs, e, c2, origin) == st.exprs);
    if 0 <= i < lines.len() {
        let line = trim(strip_comment_spec(lines[i]));
        if line.len() == 0 {
            lemma_load_line_irrelevant(lines, i + 1, c1, c2, origin, st);
        } else if line[0] == ':' {
            if let Ok((name, body)) = macro_def_spec(line.skip(1)) {
                lemma_load_line_irrelevant(
                    lines,
                    i + 1,
                    c1,
                    c2,
                    origin,
                    LoadV { macros: st.macros.push((name, body)), exprs: st.exprs },
                );
            }
        }
    }
}

/// Whether loading the line `line` closes the pending expression: a blank
/// line (once its comment is stripped), with `d` nothing; or a line that
/// defines the macro `d`.
pub open spec fn closes_pending(line: Seq<char>, d: Option<(Seq<char>, Seq<char>)>) -> bool {
    let l = trim(strip_comment_spec(line));
    match d {
        None => l.len() == 0,
        Some(def) => l.len() > 0 && l[0] == ':' && macro_def_spec(l.skip(1)) == Ok::<(Seq<char>, Seq<char>), Seq<char>>(def),
    }
}

/// `st` with the macro definition `d`, if any, added.
pub open spec fn with_definition(st: LoadV, d: Option<(Seq<char>, Seq<char>)>) -> LoadV {
    match d {
        None => st,
        Some(def) => LoadV { macros: st.macros.push(def), exprs: st.exprs },
    }
}

proof fn lemma_load_through_closing_line(
    lines: Seq<Seq<char>>,
    k: int,
    i: int,
    current: Seq<char>,
    cur_line: int,
    origin: Seq<char>,
    st: LoadV,
    d: Option<(Seq<char>, Seq<char>)>,
)
    requires
        0 <= i <= k < lines.len(),
        closes_pending(lines[k], d),
        load_spec(lines.take(k), i, current, cur_line, origin, st).1 == Ok::<StepV, Seq<char>>(StepV::Done),
    ensures
        load_spec(lines, i, current, cur_line, origin, st) == load_spec(
            lines,
            k + 1,
            Seq::empty(),
            0,
            origin,
            with_definition(load_spec(lines.take(k), i, current, cur_line, origin, st).0, d),
        ),
    decreases k - i,
{
    let pre = lines.take(k);
    if i == k {
        let flushed = LoadV { macros: st.macros, exprs: flush_spec(st.exprs, current, cur_line, origin) };
        lemma_load_line_irrelevant(lines, k + 1, cur_line, 0, origin, with_definition(flushed, d));
    } else {
        assert(pre[i] == lines[i]);
        let line = trim(strip_comment_spec(lines[i]));
        let line_no = i + 1;
        let flushed = LoadV { macros: st.macros, exprs: flush_spec(st.exprs, current, cur_line, origin) };
        if line.len() == 0 {
            lemma_load_through_closing_line(lines, k, i + 1, Seq::empty(), cur_line, origin, flushed, d);
        } else if line[0] == '@' {
        } else if line[0] == ':' {
            if let Ok((n, b)) = macro_def_spec(line.skip(1)) {
                lemma_load_through_closing_line(
                    lines,
                    k,
                    i + 1,
                    Seq::empty(),
                    cur_line,
                    origin,
                    LoadV { macros: flushed.macros.push((n, b)), exprs: flushed.exprs },
                    d,
                );
            }
        } else if current.len() == 0 {
            lemma_load_through_closing_line(lines, k, i + 1, line, line_no, origin, st, d);
        } else {
            lemma_load_through_closing_line(lines, k, i + 1, current + " "@ + line, cur_line, origin, st, d);
        }
    }
}

/// Loading only adds: the expressions and macros it starts with stay, in
/// order, at the front of those it ends with.
pub proof fn lemma_load_extends(
    lines: Seq<Seq<char>>,
    i: int,
    current: Seq<char>,
    cur_line: int,
    origin: Seq<char>,
    st: LoadV,
)
    ensures
        ({
            let end = load_spec(lines, i, current, cur_line, origin, st).0;
            &&& st.exprs.len() <= end.exprs.len()
            &&& end.exprs.take(st.exprs.len() as int) == st.exprs
            &&& st.macros.len() <= end.macros.len()
            &&& end.macros.take(st.macros.len() as int) == st.macros
        }),
    decreases lines.len() - i,
{
    let flushed = LoadV { macros: st.macros, exprs: flush_spec(st.exprs, current, cur_line, origin) };
    assert(flushed.exprs.take(st.exprs.len() as int) =~= st.exprs);
    assert(st.macros.take(st.macros.len() as int) =~= st.macros);
    if 0 <= i < lines.len() {
        let line = trim(strip_comment_spec(lines[i]));
        let line_no = i + 1;
        if line.len() == 0 {
            lemma_load_extends(lines, i + 1, Seq::empty(), cur_line, origin, flushed);
            let end = load_spec(lines, i + 1, Seq::empty(), cur_line, origin, flushed).0;
            assert(end.exprs.take(st.exprs.len() as int) =~= end.exprs.take(flushed.exprs.len() as int).take(
                st.exprs.len() as int,
            ));
        } else if line[0] == '@' {
        } else if line[0] == ':' {
            if let Ok((n, b)) = macro_def_spec(line.skip(1)) {
                let next = LoadV { macros: flushed.macros.push((n, b)), exprs: flushed.exprs };
                lemma_load_extends(lines, i + 1, Seq::empty(), cur_line, origin, next);
                let end = load_spec(lines, i + 1, Seq::empty(), cur_line, origin, next).0;
                assert(end.exprs.take(st.exprs.len() as int) =~= end.exprs.take(flushed.exprs.len() as int).take(
                    st.exprs.len() as int,
                ));
                assert(end.macros.take(st.macros.len() as int) =~= end.macros.take(next.macros.len() as int).take(
                    st.macros.len() as int,
                ));
            }
        } else if current.len() == 0 {
            lemma_load_extends(lines, i + 1, line, line_no, origin, st);
        } else {
            lemma_load_extends(lines, i + 1, current + " "@ + line, cur_line, origin, st);
        }
    }
}

/// `e` is told to come from the file `origin` on a line of `lines` that holds
/// text, and its source starts with that line's text (comment stripped,
/// trimmed).
pub open spec fn starts_on_its_line(lines: Seq<Seq<char>>, origin: Seq<char>, e: SourceV) -> bool {
    let t = trim(strip_comment_spec(lines[e.line - 1]));
    &&& e.origin == origin
    &&& 1 <= e.line <= lines.len()
    &&& 0 < t.len() <= e.source.len()
    &&& e.source.take(t.len() as int) == t
}

/// Each of `exprs` from index `n0` on starts on its line.
pub open spec fn all_start_on_their_lines(lines: Seq<Seq<char>>, origin: Seq<char>, exprs: Seq<SourceV>, n0: int) -> bool {
    forall|j: int| n0 <= j < exprs.len() ==> starts_on_its_line(lines, origin, #[trigger] exprs[j])
}

proof fn lemma_load_located(
    lines: Seq<Seq<char>>,
    i: int,
    current: Seq<char>,
    cur_line: int,
    origin: Seq<char>,
    st: LoadV,
    n0: int,
)
    requires
        0 <= i,
        0 <= n0 <= st.exprs.len(),
        all_start_on_their_lines(lines, origin, st.exprs, n0),
        current.len() > 0 ==> starts_on_its_line(lines, origin, SourceV { source: current, origin, line: cur_line }),
    ensures
        all_start_on_their_lines(lines, origin, load_spec(lines, i, current, cur_line, origin, st).0.exprs, n0),
    decreases lines.len() - i,
{
    let flushed = LoadV { macros: st.macros, exprs: flush_spec(st.exprs, current, cur_line, origin) };
    if trim(current).len() > 0 {
        assert(current.len() > 0);
    }
    assert forall|j: int| n0 <= j < flushed.exprs.len() implies starts_on_its_line(lines, origin, #[trigger] flushed.exprs[j]) by {
        if j < st.exprs.len() {
            assert(flushed.exprs[j] == st.exprs[j]);
        }
    }
    assert(all_start_on_their_lines(lines, origin, flushed.exprs, n0));
    if i < lines.len() {
        let line_no = i + 1;
        let line = trim(strip_comment_spec(lines[i]));
        if line.len() == 0 {
            lemma_load_located(lines, i + 1, Seq::empty(), cur_line, origin, flushed, n0);
        } else if line[0] == '@' {
        } else if line[0] == ':' {
            if let Ok((name, body)) = macro_def_spec(line.skip(1)) {
                lemma_load_located(
                    lines,
                    i + 1,
                    Seq::empty(),
                    cur_line,
                    origin,
                    LoadV { macros: flushed.macros.push((name, body)), exprs: flushed.exprs },
                    n0,
                );
            }
        } else if current.len() == 0 {
            assert(line.take(line.len() as int) =~= line);
            assert(line_no - 1 == i);
            assert(starts_on_its_line(lines, origin, SourceV { source: line, origin, line: line_no }));
            lemma_load_located(lines, i + 1, line, line_no, origin, st, n0);
        } else {
            let next = current + " "@ + line;
            let t = trim(strip_comment_spec(lines[cur_line - 1]));
            assert(next.take(t.len() as int) =~= current.take(t.len() as int));
            assert(starts_on_its_line(lines, origin, SourceV { source: next, origin, line: cur_line }));
            lemma_load_located(lines, i + 1, next, cur_line, origin, st, n0);
        }
    }
}

/// Every expression that loading adds says where it comes from: the file
/// `origin` and the line on which its text starts (counted from one), a line
/// that holds text; and its source starts with that line's text.
pub proof fn lemma_loaded_expressions_located(lines: Seq<Seq<char>>, start: int, origin: Seq<char>, st: LoadV)
    requires
        0 <= start,
    ensures
        all_start_on_their_lines(
            lines,
            origin,
            load_spec(lines, start, Seq::empty(), 0, origin, st).0.exprs,
            st.exprs.len() as int,
        ),
{
    lemma_load_located(lines, start, Seq::empty(), 0, origin, st, st.exprs.len() as int);
}

/// A blank line (once its comment is stripped) ends the pending expression.
/// Where loading the lines before line index `k` runs to their end, and line
/// `k` is blank, loading the whole file is: the state that the lines before
/// `k` leave, with their last expression closed, and then loading on from
/// line `k + 1` with nothing pending; so the expressions of the whole file
/// start with those of the lines before `k`, and none joins text from both
/// sides of the blank line.
pub proof fn lemma_blank_line_ends_expression(lines: Seq<Seq<char>>, k: int, origin: Seq<char>, st: LoadV)
    requires
        0 <= k < lines.len(),
        trim(strip_comment_spec(lines[k])).len() == 0,
        load_spec(lines.take(k), 0, Seq::empty(), 0, origin, st).1 == Ok::<StepV, Seq<char>>(StepV::Done),
    ensures
        ({
            let before = load_spec(lines.take(k), 0, Seq::empty(), 0, origin, st).0;
            &&& load_spec(lines, 0, Seq::empty(), 0, origin, st) == load_spec(lines, k + 1, Seq::empty(), 0, origin, before)
            &&& before.exprs.len() <= load_spec(lines, 0, Seq::empty(), 0, origin, st).0.exprs.len()
            &&& load_spec(lines, 0, Seq::empty(), 0, origin, st).0.exprs.take(before.exprs.len() as int)
                == before.exprs
        }),
{
    lemma_load_through_closing_line(lines, k, 0, Seq::empty(), 0, origin, st, None);
    let before = load_spec(lines.take(k), 0, Seq::empty(), 0, origin, st).0;
    lemma_load_extends(lines, k + 1, Seq::empty(), 0, origin, before);
}

/// A `:name body` line ends the pending expression. Where loading the lines
/// before line index `k` runs to their end, and line `k` defines the macro
/// `name`, loading the whole file is: the state that the lines before `k`
/// leave, with their last expression closed, plus the new macro, and then
/// loading on from line `k + 1` with nothing pending; so the expressions of
/// the whole file start with those of the lines before `k`, and no
/// expression joins text from both sides of a macro line.
pub proof fn lemma_macro_line_ends_expression(
    lines: Seq<Seq<char>>,
    k: int,
    origin: Seq<char>,
    st: LoadV,
    name: Seq<char>,
    body: Seq<char>,
)
    requires
        0 <= k < lines.len(),
        trim(strip_comment_spec(lines[k])).len() > 0,
        trim(strip_comment_spec(lines[k]))[0] == ':',
        macro_def_spec(trim(strip_comment_spec(lines[k])).skip(1)) == Ok::<(Seq<char>, Seq<char>), Seq<char>>((name, body)),
        load_spec(lines.take(k), 0, Seq::empty(), 0, origin, st).1 == Ok::<StepV, Seq<char>>(StepV::Done),
    ensures
        ({
            let before = load_spec(lines.take(k), 0, Seq::empty(), 0, origin, st).0;
            &&& load_spec(lines, 0, Seq::empty(), 0, origin, st) == load_spec(
                lines,
                k + 1,
                Seq::empty(),
                0,
                origin,
                LoadV { macros: before.macros.push((name, body)), exprs: before.exprs },
            )
            &&& before.exprs.len() <= load_spec(lines, 0, Seq::empty(), 0, origin, st).0.exprs.len()
            &&& load_spec(lines, 0, Seq::empty(), 0, origin, st).0.exprs.take(before.exprs.len() as int)
                == before.exprs
        }),
{
    lemma_load_through_closing_line(lines, k, 0, Seq::empty(), 0, origin, st, Some((name, body)));
    let before = load_spec(lines.take(k), 0, Seq::empty(), 0, origin, st).0;
    lemma_load_extends(
        lines,
        k + 1,
        Seq::empty(),
        0,
        origin,
        LoadV { macros: before.macros.push((name, body)), exprs: before.exprs },
    );
}


/// Whether `cs[lo..hi]` ends in `.pl`.
pub(crate) fn has_pl_suffix(cs: &Vec<char>, lo: usize, hi: usize) -> (r: bool)
    requires
        lo <= hi <= cs@.len(),
    ensures
        r == ends_with(cs@.subrange(lo as int, hi as int), ".pl"@),
{
    proof {
        reveal_strlit(".pl");
    }
    if hi - lo < 3 {
        return false;
    }
    let r = cs[hi - 3] == '.' && cs[hi - 2] == 'p' && cs[hi - 1] == 'l';
    let ghost s = cs@.subrange(lo as int, hi as int);
    assert(s.skip(s.len() - 3) =~= cs@.subrange(hi - 3, hi as int));
    if r {
        assert(cs@.subrange(hi - 3, hi as int) =~= ".pl"@);
    } else {
        assert(cs@.subrange(hi - 3, hi as int) != ".pl"@ ) by {
            if cs@.subrange(hi - 3, hi as int) == ".pl"@ {
                assert(cs@.subrange(hi - 3, hi as int)[0] == '.');
                assert(cs@.subrange(hi - 3, hi as int)[1] == 'p');
                assert(cs@.subrange(hi - 3, hi as int)[2] == 'l');
            }
        }
    }
    r
}

/// Where loading a file stopped.
#[derive(Debug)]
pub enum LoadStep {
    /// The end of the file was reached.
    Done,
    /// Line `line` includes the file `name`; load it, then resume at line
    /// index `next`.
    Include { name: String, line: usize, next: usize },
}

pub open spec fn step_view(s: LoadStep) -> StepV {
    match s {
        LoadStep::Done => StepV::Done,
        LoadStep::Include { name, line, next } => StepV::Include(name@, line as int, next as int),
    }
}

/// Accumulates the macros and expressions of the files of a compilation
/// unit. Reading files and resolving includes against the search path is
/// left to the caller, which feeds the lines of each file to `load_lines`.
pub struct Preprocessor {
    macros: Vec<(String, String)>,
    exprs: Vec<SourceExpr>,
    include_paths: Vec<std::path::PathBuf>,
}

/// `std::path::PathBuf`, declared so that include directories can be held
/// and handed back; nothing is known of what a path holds.
#[verifier::external_type_specification]
#[verifier::external_body]
pub struct ExPathBuf(std::path::PathBuf);

impl View for Preprocessor {
    type V = LoadV;

    closed spec fn view(&self) -> LoadV {
        LoadV { macros: defs_view(self.macros@), exprs: sources_view(self.exprs@) }
    }
}

impl Preprocessor {
    /// The directories searched for included files.
    pub closed spec fn paths(&self) -> Seq<std::path::PathBuf> {
        self.include_paths@
    }

    /// A preprocessor with no macros or expressions yet, which searches
    /// `include_paths` for included files.
    pub fn new(include_paths: Vec<std::path::PathBuf>) -> (r: Preprocessor)
        ensures
            r@.macros == Seq::<(Seq<char>, Seq<char>)>::empty(),
            r@.exprs == Seq::<SourceV>::empty(),
            r.paths() == include_paths@,
    {
        let r = Preprocessor { macros: Vec::new(), exprs: Vec::new(), include_paths };
        assert(r@.macros =~= Seq::<(Seq<char>, Seq<char>)>::empty());
        assert(r@.exprs =~= Seq::<SourceV>::empty());
        r
    }

    /// The directories searched for included files.
    pub fn include_paths(&self) -> (r: &Vec<std::path::PathBuf>)
        ensures
            r@ == self.paths(),
    {
        &self.include_paths
    }

    /// The loaded unit: all macro definitions and expressions.
    pub fn into_unit(self) -> (r: Unit)
        ensures
            defs_view(r.macros@) == self@.macros,
            sources_view(r.exprs@) == self@.exprs,
    {
        Unit { macros: self.macros, exprs: self.exprs }
    }

    /// Load lines `start..` of a file whose name is displayed as `origin`,
    /// until its end or an include.
    #[verifier::rlimit(60)]
    pub fn load_lines(&mut self, lines: &Vec<String>, start: usize, origin: &String) -> (r: Result<
        LoadStep,
        String,
    >)
        ensures
            final(self).paths() == old(self).paths(),
            final(self)@ == load_spec(texts(lines@), start as int, Seq::empty(), 0, origin@, old(self)@).0,
            match (r, load_spec(texts(lines@), start as int, Seq::empty(), 0, origin@, old(self)@).1) {
                (Ok(s), Ok(t)) => step_view(s) == t,
                (Err(e), Err(f)) => e@ == f,
                _ => false,
            },
    {
        let ghost ls = texts(lines@);
        let mut current = String::new();
        let mut current_line: usize = 0;
        let mut i = start;
        while i < lines.len()
            invariant
                ls == texts(lines@),
                start <= i <= lines@.len() || i == start,
                self.include_paths@ == old(self).include_paths@,
                load_spec(ls, start as int, Seq::empty(), 0, origin@, old(self)@) == load_spec(
                    ls,
                    i as int,
                    current@,
                    current_line as int,
                    origin@,
                    self@,
                ),
                current@.len() > 0 ==> current_line == i || current_line < i,
                current_line <= i,
            decreases lines.len() - i,
        {
            let line_no = i + 1;
            assert(ls[i as int] == lines@[i as int]@);
            let stripped = strip_comment(lines[i].as_str());
            let cs = chars_of(stripped.as_str());
            let (a, b) = trim_range(&cs, 0, cs.len());
            assert(cs@.subrange(0, cs@.len() as int) =~= cs@);
            let ghost line = cs@.subrange(a as int, b as int);
            if a == b {
                self.flush(&mut current, current_line, origin);
                i = i + 1;
                continue;
            }
            assert(line[0] == cs@[a as int]);
            if cs[a] == '@' {
                self.flush(&mut current, current_line, origin);
                let (c, d) = trim_range(&cs, a + 1, b);
                assert(cs@.subrange(a + 1, b as int) =~= line.skip(1));
                let name = string_from_range(&cs, c, d);
                if !has_pl_suffix(&cs, c, d) {
                    let mut e = Self::location(origin, line_no);
                    append_str(&mut e, "include file must end in .pl: ");
                    append_str(&mut e, name.as_str());
                    return Err(e);
                }
                return Ok(LoadStep::Include { name, line: line_no, next: i + 1 });
            }
            if cs[a] == ':' {
                self.flush(&mut current, current_line, origin);
                assert(cs@.subrange(a + 1, b as int) =~= line.skip(1));
                match Self::define_macro(&cs, a + 1, b) {
                    Ok((name, body)) => {
                        let ghost m0 = self@.macros;
                        self.macros.push((name, body));
                        assert(self@.macros =~= m0.push((name@, body@)));
                    },
                    Err(m) => {
                        let mut e = Self::location(origin, line_no);
                        append_str(&mut e, m.as_str());
                        return Err(e);
                    },
                }
                i = i + 1;
                continue;
            }
            let text = string_from_range(&cs, a, b);
            let ghost cur0 = current@;
            if current.as_str().is_empty() {
                current_line = line_no;
            } else {
                push_char(&mut current, ' ');
                proof {
                    reveal_strlit(" ");
                }
                assert(cur0.push(' ') =~= cur0 + " "@);
            }
            append_str(&mut current, text.as_str());
            i = i + 1;
        }
        self.flush(&mut current, current_line, origin);
        Ok(LoadStep::Done)
    }

    /// Text `origin:line_no: `.
    fn location(origin: &String, line_no: usize) -> (r: String)
        ensures
            r@ == origin@ + ":"@ + int_text(line_no as int) + ": "@,
    {
        let mut e = string_of(origin.as_str());
        append_str(&mut e, ":");
        push_int_text(&mut e, line_no as i128);
        append_str(&mut e, ": ");
        e
    }

    /// Close the pending expression `current`, which starts at line `line`.
    fn flush(&mut self, current: &mut String, line: usize, origin: &String)
        ensures
            final(current)@ == Seq::<char>::empty(),
            final(self).paths() == old(self).paths(),
            final(self)@.macros == old(self)@.macros,
            final(self)@.exprs == flush_spec(old(self)@.exprs, old(current)@, line as int, origin@),
    {
        let cs = chars_of(current.as_str());
        let (a, b) = trim_range(&cs, 0, cs.len());
        assert(cs@.subrange(0, cs@.len() as int) =~= cs@);
        if a == b {
            *current = String::new();
            return;
        }
        let mut source = String::new();
        std::mem::swap(&mut source, current);
        let ghost e0 = self@.exprs;
        self.exprs.push(SourceExpr { source, origin: origin.clone(), line });
        assert(self@.exprs =~= e0.push(SourceV { source: source@, origin: origin@, line: line as int }));
    }

    /// Parse a macro definition from `cs[lo..hi]`, the text after the `:`.
    fn define_macro(cs: &Vec<char>, lo: usize, hi: usize) -> (r: Result<(String, String), String>)
        requires
            lo <= hi <= cs@.len(),
        ensures
            match (r, macro_def_spec(cs@.subrange(lo as int, hi as int))) {
                (Ok((n, b)), Ok((m, c))) => n@ == m && b@ == c,
                (Err(e), Err(f)) => e@ == f,
                _ => false,
            },
    {
        let ghost rest = cs@.subrange(lo as int, hi as int);
        let (a, b) = trim_range(cs, lo, hi);
        let ghost r = cs@.subrange(a as int, b as int);
        let mut k = a;
        proof {
            lemma_space_start(r, 0);
        }
        while k < b && !is_whitespace(cs[k])
            invariant
                a <= k <= b <= cs@.len(),
                r == cs@.subrange(a as int, b as int),
                space_start(r, 0) == space_start(r, k - a),
            decreases b - k,
        {
            k = k + 1;
        }
        proof {
            lemma_space_start(r, k - a);
        }
        if k >= b {
            return Err(string_of("macro definition must be ':name body'"));
        }
        let (na, nb) = trim_range(cs, a, k);
        assert(cs@.subrange(a as int, k as int) =~= r.take(k - a));
        let (ba, bb) = trim_range(cs, k + 1, b);
        assert(cs@.subrange(k + 1, b as int) =~= r.skip(k - a + 1));
        if na == nb || ba == bb {
            return Err(string_of("macro name and body must both be non-empty"));
        }
        let name = string_from_range(cs, na, nb);
        let body = string_from_range(cs, ba, bb);
        // Reject up front rather than at expansion time, where the error would
        // point at a use site instead of the definition.
        match parse_expr(body.as_str()) {
            Ok(_) => Ok((name, body)),
            Err(m) => {
                let mut e = string_of("in macro '");
                append_str(&mut e, name.as_str());
                append_str(&mut e, "': ");
                append_str(&mut e, m.as_str());
                Err(e)
            },
        }
    }
}

} // verus!
