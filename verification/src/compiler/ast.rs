//! Surface syntax: untyped lambda calculus plus 63-bit integer literals.
use vstd::prelude::*;

use crate::text::{
    append_str, int_text, push_int_text, sorted_insert, sorted_remove, sorted_union, string_of,
    strictly_sorted, texts,
};

verus! {

/// A surface expression.
#[derive(Debug)]
pub enum Expr {
    Var(String),
    Num(i64),
    Fun { arg: String, body: Box<Expr> },
    App(Box<Expr>, Box<Expr>),
}

/// The mathematical value of an `Expr`: names are character sequences and
/// numbers are integers.
pub enum ExprV {
    Var(Seq<char>),
    Num(int),
    Fun(Seq<char>, Box<ExprV>),
    App(Box<ExprV>, Box<ExprV>),
}

impl View for Expr {
    type V = ExprV;

    open spec fn view(&self) -> ExprV
        decreases self,
    {
        match self {
            Expr::Var(name) => ExprV::Var(name@),
            Expr::Num(n) => ExprV::Num(*n as int),
            Expr::Fun { arg, body } => ExprV::Fun(arg@, Box::new((**body).view())),
            Expr::App(left, right) => ExprV::App(
                Box::new((**left).view()),
                Box::new((**right).view()),
            ),
        }
    }
}

/// Variables of `e` that are not bound by an enclosing lambda.
pub open spec fn free_vars_spec(e: ExprV) -> Set<Seq<char>>
    decreases e,
{
    match e {
        ExprV::Var(name) => set![name],
        ExprV::Num(_) => Set::empty(),
        ExprV::Fun(arg, body) => free_vars_spec(*body).remove(arg),
        ExprV::App(left, right) => free_vars_spec(*left).union(free_vars_spec(*right)),
    }
}

/// Text of `e`; `parens` asks for parentheses around a lambda or an
/// application.
pub open spec fn write_spec(e: ExprV, parens: bool) -> Seq<char>
    decreases e,
{
    match e {
        ExprV::Var(name) => name,
        ExprV::Num(n) => int_text(n),
        ExprV::Fun(arg, body) => {
            let inner = "\\"@ + arg + "."@ + write_spec(*body, false);
            if parens { "("@ + inner + ")"@ } else { inner }
        },
        ExprV::App(left, right) => {
            let inner = write_spec(*left, (*left) is Fun) + " "@ + write_spec(
                *right,
                !((*right) is Var || (*right) is Num),
            );
            if parens { "("@ + inner + ")"@ } else { inner }
        },
    }
}

/// Text of `e`, with the fewest parentheses that keep it unambiguous.
pub open spec fn show_spec(e: ExprV) -> Seq<char> {
    write_spec(e, false)
}

impl Expr {
    /// Variables that are not bound by an enclosing lambda, in string order
    /// and without duplicates.
    pub fn free_vars(&self) -> (r: Vec<String>)
        ensures
            strictly_sorted(texts(r@)),
            texts(r@).to_set() == free_vars_spec(self@),
    {
        let mut acc: Vec<String> = Vec::new();
        assert(texts(acc@).to_set() =~= Set::empty());
        self.collect_free(&mut acc);
        assert(texts(acc@).to_set() =~= free_vars_spec(self@));
        acc
    }

    fn collect_free(&self, acc: &mut Vec<String>)
        requires
            strictly_sorted(texts(old(acc)@)),
        ensures
            strictly_sorted(texts(final(acc)@)),
            texts(final(acc)@).to_set() == texts(old(acc)@).to_set().union(free_vars_spec(self@)),
        decreases self,
    {
        match self {
            Expr::Num(_) => {
                assert(texts(acc@).to_set().union(Set::empty()) =~= texts(acc@).to_set());
            },
            Expr::Var(name) => {
                sorted_insert(acc, name.clone());
                assert(texts(old(acc)@).to_set().insert(name@) =~= texts(old(acc)@).to_set().union(
                    set![name@],
                ));
            },
            Expr::Fun { arg, body } => {
                let mut inner: Vec<String> = Vec::new();
                assert(texts(inner@).to_set() =~= Set::empty());
                body.collect_free(&mut inner);
                sorted_remove(&mut inner, arg);
                sorted_union(acc, &inner);
                assert(Set::<Seq<char>>::empty().union(free_vars_spec(body@)) =~= free_vars_spec(
                    body@,
                ));
            },
            Expr::App(left, right) => {
                left.collect_free(acc);
                right.collect_free(acc);
                assert(texts(old(acc)@).to_set().union(free_vars_spec(left@)).union(
                    free_vars_spec(right@),
                ) =~= texts(old(acc)@).to_set().union(free_vars_spec(self@)));
            },
        }
    }

    /// The text of the expression, with parentheses only where they are needed.
    pub fn show(&self) -> (r: String)
        ensures
            r@ == show_spec(self@),
    {
        let mut out = String::new();
        self.write(&mut out, false);
        out
    }

    fn write(&self, out: &mut String, parens: bool)
        ensures
            final(out)@ == old(out)@ + write_spec(self@, parens),
        decreases self,
    {
        match self {
            Expr::Var(name) => append_str(out, name.as_str()),
            Expr::Num(n) => push_int_text(out, *n as i128),
            Expr::Fun { arg, body } => {
                if parens {
                    append_str(out, "(");
                }
                append_str(out, "\\");
                append_str(out, arg.as_str());
                append_str(out, ".");
                body.write(out, false);
                if parens {
                    append_str(out, ")");
                }
                let ghost inner = "\\"@ + arg@ + "."@ + write_spec(body@, false);
                if parens {
                    assert(final(out)@ =~= old(out)@ + ("("@ + inner + ")"@));
                } else {
                    assert(final(out)@ =~= old(out)@ + inner);
                }
            },
            Expr::App(left, right) => {
                if parens {
                    append_str(out, "(");
                }
                let lp = match &**left {
                    Expr::Fun { .. } => true,
                    _ => false,
                };
                left.write(out, lp);
                append_str(out, " ");
                let rp = match &**right {
                    Expr::Var(_) => false,
                    Expr::Num(_) => false,
                    _ => true,
                };
                right.write(out, rp);
                if parens {
                    append_str(out, ")");
                }
                let ghost inner = write_spec(left@, lp) + " "@ + write_spec(right@, rp);
                if parens {
                    assert(final(out)@ =~= old(out)@ + ("("@ + inner + ")"@));
                } else {
                    assert(final(out)@ =~= old(out)@ + inner);
                }
            },
        }
    }

    /// A copy of the expression.
    pub fn duplicate(&self) -> (r: Expr)
        ensures
            r@ == self@,
        decreases self,
    {
        match self {
            Expr::Var(name) => Expr::Var(name.clone()),
            Expr::Num(n) => Expr::Num(*n),
            Expr::Fun { arg, body } => Expr::Fun { arg: arg.clone(), body: Box::new(body.duplicate()) },
            Expr::App(left, right) => Expr::App(Box::new(left.duplicate()), Box::new(right.duplicate())),
        }
    }
}

/// Every name of `e`, free or bound.
pub open spec fn names_of(e: ExprV) -> Set<Seq<char>>
    decreases e,
{
    match e {
        ExprV::Var(name) => set![name],
        ExprV::Num(_) => Set::empty(),
        ExprV::Fun(arg, body) => names_of(*body).insert(arg),
        ExprV::App(left, right) => names_of(*left).union(names_of(*right)),
    }
}

/// `e` with the free occurrences of `x` renamed `y`.
pub open spec fn rename(e: ExprV, x: Seq<char>, y: Seq<char>) -> ExprV
    decreases e,
{
    match e {
        ExprV::Var(name) => if name == x { ExprV::Var(y) } else { e },
        ExprV::Num(_) => e,
        ExprV::Fun(arg, body) => if arg == x { e } else { ExprV::Fun(arg, Box::new(rename(*body, x, y))) },
        ExprV::App(left, right) => ExprV::App(Box::new(rename(*left, x, y)), Box::new(rename(*right, x, y))),
    }
}

/// Number of nodes of `e`.
pub open spec fn term_size(e: ExprV) -> nat
    decreases e,
{
    match e {
        ExprV::Var(_) => 1,
        ExprV::Num(_) => 1,
        ExprV::Fun(_, body) => 1 + term_size(*body),
        ExprV::App(left, right) => 1 + term_size(*left) + term_size(*right),
    }
}

/// Renaming keeps the size of a term.
pub proof fn lemma_rename_size(e: ExprV, x: Seq<char>, y: Seq<char>)
    ensures
        term_size(rename(e, x, y)) == term_size(e),
    decreases e,
{
    match e {
        ExprV::Fun(arg, body) => {
            lemma_rename_size(*body, x, y);
        },
        ExprV::App(left, right) => {
            lemma_rename_size(*left, x, y);
            lemma_rename_size(*right, x, y);
        },
        _ => {},
    }
}

impl Expr {
    /// Every name of the expression, free or bound, in string order.
    pub(crate) fn names(&self) -> (r: Vec<String>)
        ensures
            strictly_sorted(texts(r@)),
            texts(r@).to_set() == names_of(self@),
    {
        let mut acc: Vec<String> = Vec::new();
        assert(texts(acc@).to_set() =~= Set::empty());
        self.collect_names(&mut acc);
        assert(texts(acc@).to_set() =~= names_of(self@));
        acc
    }

    fn collect_names(&self, acc: &mut Vec<String>)
        requires
            strictly_sorted(texts(old(acc)@)),
        ensures
            strictly_sorted(texts(final(acc)@)),
            texts(final(acc)@).to_set() == texts(old(acc)@).to_set().union(names_of(self@)),
        decreases self,
    {
        match self {
            Expr::Num(_) => {
                assert(texts(acc@).to_set().union(Set::empty()) =~= texts(acc@).to_set());
            },
            Expr::Var(name) => {
                sorted_insert(acc, name.clone());
                assert(texts(old(acc)@).to_set().insert(name@) =~= texts(old(acc)@).to_set().union(
                    set![name@],
                ));
            },
            Expr::Fun { arg, body } => {
                body.collect_names(acc);
                let ghost mid = texts(acc@).to_set();
                sorted_insert(acc, arg.clone());
                assert(mid.insert(arg@) =~= texts(old(acc)@).to_set().union(names_of(self@)));
            },
            Expr::App(left, right) => {
                left.collect_names(acc);
                right.collect_names(acc);
                assert(texts(old(acc)@).to_set().union(names_of(left@)).union(names_of(right@))
                    =~= texts(old(acc)@).to_set().union(names_of(self@)));
            },
        }
    }

    /// The expression with the free occurrences of `x` renamed `y`.
    pub(crate) fn rename(&self, x: &String, y: &String) -> (r: Expr)
        ensures
            r@ == rename(self@, x@, y@),
        decreases self,
    {
        match self {
            Expr::Var(name) => if *name == *x {
                Expr::Var(y.clone())
            } else {
                Expr::Var(name.clone())
            },
            Expr::Num(n) => Expr::Num(*n),
            Expr::Fun { arg, body } => if *arg == *x {
                self.duplicate()
            } else {
                Expr::Fun { arg: arg.clone(), body: Box::new(body.rename(x, y)) }
            },
            Expr::App(left, right) => Expr::App(Box::new(left.rename(x, y)), Box::new(right.rename(x, y))),
        }
    }
}

} // verus!
