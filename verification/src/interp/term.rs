//! Terms of the interpreter: capture-avoiding substitution and normal-order
//! beta reduction with lazily expanded macros.
use vstd::prelude::*;

use crate::interp::lexer::{parse_spec, parse_stuck, try_parse_expr};
use crate::interp::preprocessor::Preprocessor;
use crate::text::{
    append_str, contains_text, lemma_sorted_elements, lemma_sorted_elements_exist, push_char,
    sorted_elements, sorted_insert, sorted_remove, sorted_union, strictly_sorted, texts,
};

verus! {

/// A lambda term. `right_first` marks an application whose argument was
/// written in parentheses right after a bare atom; such an argument is
/// printed in parentheses.
#[derive(Debug)]
pub enum Expr {
    Var(String),
    Fun { arg: String, body: Box<Expr> },
    App { left: Box<Expr>, right: Box<Expr>, right_first: bool },
}

/// The mathematical value of an `Expr`.
pub enum ExprV {
    Var(Seq<char>),
    Fun(Seq<char>, Box<ExprV>),
    App(Box<ExprV>, Box<ExprV>, bool),
}

impl View for Expr {
    type V = ExprV;

    open spec fn view(&self) -> ExprV
        decreases self,
    {
        match self {
            Expr::Var(name) => ExprV::Var(name@),
            Expr::Fun { arg, body } => ExprV::Fun(arg@, Box::new((**body).view())),
            Expr::App { left, right, right_first } => ExprV::App(
                Box::new((**left).view()),
                Box::new((**right).view()),
                *right_first,
            ),
        }
    }
}


/// Number of variables, lambdas and applications in `e`.
pub open spec fn size(e: ExprV) -> nat
    decreases e,
{
    match e {
        ExprV::Var(_) => 1,
        ExprV::Fun(_, body) => 1 + size(*body),
        ExprV::App(left, right, _) => 1 + size(*left) + size(*right),
    }
}

/// Variables of `e` not bound by an enclosing lambda.
pub open spec fn free_vars_spec(e: ExprV) -> Set<Seq<char>>
    decreases e,
{
    match e {
        ExprV::Var(name) => set![name],
        ExprV::Fun(arg, body) => free_vars_spec(*body).remove(arg),
        ExprV::App(left, right, _) => free_vars_spec(*left).union(free_vars_spec(*right)),
    }
}

/// Length of the longest of `s`.
pub open spec fn max_len(s: Seq<Seq<char>>) -> nat
    decreases s.len(),
{
    if s.len() == 0 {
        0
    } else {
        let m = max_len(s.drop_last());
        if s.last().len() > m { s.last().len() } else { m }
    }
}

proof fn lemma_max_len(s: Seq<Seq<char>>)
    ensures
        forall|i: int| 0 <= i < s.len() ==> (#[trigger] s[i]).len() <= max_len(s),
    decreases s.len(),
{
    if s.len() > 0 {
        lemma_max_len(s.drop_last());
        assert forall|i: int| 0 <= i < s.len() implies (#[trigger] s[i]).len() <= max_len(s) by {
            if i < s.len() - 1 {
                assert(s[i] == s.drop_last()[i]);
            }
        }
    }
}

/// `name`, with `mark` appended until it is none of `avoid`.
pub open spec fn fresh_with(avoid: Seq<Seq<char>>, name: Seq<char>, mark: char) -> Seq<char>
    decreases max_len(avoid) + 1 - name.len(),
{
    if name.len() > max_len(avoid) || !avoid.contains(name) {
        name
    } else {
        fresh_with(avoid, name.push(mark), mark)
    }
}

/// `name`, with `'` appended until it is none of `avoid`.
pub open spec fn fresh_spec(avoid: Seq<Seq<char>>, name: Seq<char>) -> Seq<char> {
    fresh_with(avoid, name, '\'')
}

pub proof fn lemma_fresh_with(avoid: Seq<Seq<char>>, name: Seq<char>, mark: char)
    ensures
        !avoid.contains(fresh_with(avoid, name, mark)),
        avoid.contains(name) ==> fresh_with(avoid, name, mark) != name,
    decreases max_len(avoid) + 1 - name.len(),
{
    lemma_max_len(avoid);
    if name.len() > max_len(avoid) || !avoid.contains(name) {
        if avoid.contains(name) {
            let i = choose|i: int| 0 <= i < avoid.len() && avoid[i] == name;
            assert(avoid[i].len() <= max_len(avoid));
        }
    } else {
        lemma_fresh_with(avoid, name.push(mark), mark);
        if fresh_with(avoid, name.push(mark), mark) == name {
            assert(fresh_with(avoid, name.push(mark), mark).len() >= name.len() + 1) by {
                lemma_fresh_longer(avoid, name.push(mark), mark);
            }
        }
    }
}

pub proof fn lemma_fresh(avoid: Seq<Seq<char>>, name: Seq<char>)
    ensures
        !avoid.contains(fresh_spec(avoid, name)),
        avoid.contains(name) ==> fresh_spec(avoid, name) != name,
{
    lemma_fresh_with(avoid, name, '\'');
}

proof fn lemma_fresh_longer(avoid: Seq<Seq<char>>, name: Seq<char>, mark: char)
    ensures
        fresh_with(avoid, name, mark).len() >= name.len(),
    decreases max_len(avoid) + 1 - name.len(),
{
    if !(name.len() > max_len(avoid) || !avoid.contains(name)) {
        lemma_fresh_longer(avoid, name.push(mark), mark);
    }
}

/// Substitution of `r` for the free occurrences of `var` in `e`, with at most
/// `n` levels of recursion. When `r` has the parameter of a lambda free, the
/// parameter is first renamed by appending `'` until it is free neither in
/// `r` nor in the lambda's body, and differs from `var`.
pub open spec fn subst_n(n: nat, e: ExprV, var: Seq<char>, r: ExprV) -> ExprV
    decreases n,
{
    if n == 0 {
        e
    } else {
        match e {
            ExprV::Var(name) => if name == var { r } else { e },
            ExprV::Fun(arg, body) => if arg == var {
                e
            } else if free_vars_spec(r).contains(arg) {
                let avoid = sorted_elements(free_vars_spec(r).union(free_vars_spec(*body)).insert(var));
                let new_arg = fresh_spec(avoid, arg);
                let new_body = subst_n((n - 1) as nat, *body, arg, ExprV::Var(new_arg));
                ExprV::Fun(new_arg, Box::new(subst_n((n - 1) as nat, new_body, var, r)))
            } else {
                ExprV::Fun(arg, Box::new(subst_n((n - 1) as nat, *body, var, r)))
            },
            ExprV::App(left, right, right_first) => ExprV::App(
                Box::new(subst_n((n - 1) as nat, *left, var, r)),
                Box::new(subst_n((n - 1) as nat, *right, var, r)),
                right_first,
            ),
        }
    }
}

/// Capture-avoiding substitution of `r` for the free occurrences of `var` in
/// `e`.
pub open spec fn subst(e: ExprV, var: Seq<char>, r: ExprV) -> ExprV {
    subst_n(size(e), e, var, r)
}

/// Substituting a variable for a variable keeps the size of a term.
proof fn lemma_subst_var_size(n: nat, e: ExprV, var: Seq<char>, y: Seq<char>)
    ensures
        size(subst_n(n, e, var, ExprV::Var(y))) == size(e),
    decreases n,
{
    if n > 0 {
        match e {
            ExprV::Fun(arg, body) => {
                if arg != var {
                    let r = ExprV::Var(y);
                    if free_vars_spec(r).contains(arg) {
                        let avoid = sorted_elements(free_vars_spec(r).union(free_vars_spec(*body)).insert(var));
                        let new_arg = fresh_spec(avoid, arg);
                        lemma_subst_var_size((n - 1) as nat, *body, arg, new_arg);
                        let new_body = subst_n((n - 1) as nat, *body, arg, ExprV::Var(new_arg));
                        lemma_subst_var_size((n - 1) as nat, new_body, var, y);
                    } else {
                        lemma_subst_var_size((n - 1) as nat, *body, var, y);
                    }
                }
            },
            ExprV::App(left, right, _) => {
                lemma_subst_var_size((n - 1) as nat, *left, var, y);
                lemma_subst_var_size((n - 1) as nat, *right, var, y);
            },
            _ => {},
        }
    }
}

/// Enough recursion levels give the same substitution.
proof fn lemma_subst_fuel(n: nat, m: nat, e: ExprV, var: Seq<char>, r: ExprV)
    requires
        n >= size(e),
        m >= size(e),
    ensures
        subst_n(n, e, var, r) == subst_n(m, e, var, r),
    decreases n,
{
    match e {
        ExprV::Fun(arg, body) => {
            if arg != var {
                if free_vars_spec(r).contains(arg) {
                    let avoid = sorted_elements(free_vars_spec(r).union(free_vars_spec(*body)).insert(var));
                    let new_arg = fresh_spec(avoid, arg);
                    lemma_subst_fuel((n - 1) as nat, (m - 1) as nat, *body, arg, ExprV::Var(new_arg));
                    let new_body = subst_n((n - 1) as nat, *body, arg, ExprV::Var(new_arg));
                    lemma_subst_var_size((n - 1) as nat, *body, arg, new_arg);
                    lemma_subst_fuel((n - 1) as nat, (m - 1) as nat, new_body, var, r);
                } else {
                    lemma_subst_fuel((n - 1) as nat, (m - 1) as nat, *body, var, r);
                }
            }
        },
        ExprV::App(left, right, _) => {
            lemma_subst_fuel((n - 1) as nat, (m - 1) as nat, *left, var, r);
            lemma_subst_fuel((n - 1) as nat, (m - 1) as nat, *right, var, r);
        },
        _ => {},
    }
}

fn max_name_len(v: &Vec<String>) -> (r: usize)
    ensures
        r as nat == max_len(texts(v@)),
{
    let mut m: usize = 0;
    let mut i: usize = 0;
    while i < v.len()
        invariant
            0 <= i <= v@.len(),
            m as nat == max_len(texts(v@).take(i as int)),
        decreases v.len() - i,
    {
        let l = v[i].as_str().unicode_len();
        assert(texts(v@).take(i + 1).drop_last() =~= texts(v@).take(i as int));
        assert(texts(v@).take(i + 1).last() == v@[i as int]@);
        if l > m {
            m = l;
        }
        i = i + 1;
    }
    assert(texts(v@).take(v@.len() as int) =~= texts(v@));
    m
}

/// `var`, with `'` appended until it is none of `avoid`.
pub(crate) fn fresh_var(avoid: &Vec<String>, var: &String) -> (r: String)
    ensures
        r@ == fresh_spec(texts(avoid@), var@),
{
    fresh_var_with(avoid, var, '\'')
}

/// `var`, with `mark` appended until it is none of `avoid`.
pub(crate) fn fresh_var_with(avoid: &Vec<String>, var: &String, mark: char) -> (r: String)
    ensures
        r@ == fresh_with(texts(avoid@), var@, mark),
{
    let ghost a = texts(avoid@);
    let m = max_name_len(avoid);
    let mut name = var.clone();
    proof {
        lemma_max_len(a);
    }
    while contains_text(avoid, &name)
        invariant
            a == texts(avoid@),
            m as nat == max_len(a),
            fresh_with(a, var@, mark) == fresh_with(a, name@, mark),
            forall|i: int| 0 <= i < a.len() ==> (#[trigger] a[i]).len() <= max_len(a),
        decreases m + 1 - name@.len(),
    {
        let ghost k = choose|k: int| 0 <= k < a.len() && a[k] == name@;
        assert(a[k].len() <= max_len(a));
        push_char(&mut name, mark);
    }
    name
}

impl Expr {
    /// A copy of the term.
    pub fn duplicate(&self) -> (r: Expr)
        ensures
            r@ == self@,
        decreases self,
    {
        match self {
            Expr::Var(name) => Expr::Var(name.clone()),
            Expr::Fun { arg, body } => Expr::Fun { arg: arg.clone(), body: Box::new(body.duplicate()) },
            Expr::App { left, right, right_first } => Expr::App {
                left: Box::new(left.duplicate()),
                right: Box::new(right.duplicate()),
                right_first: *right_first,
            },
        }
    }

    /// Check if var is free within expression
    pub fn is_free(&self, var: &String) -> (r: bool)
        ensures
            r == free_vars_spec(self@).contains(var@),
        decreases self,
    {
        match self {
            Expr::Var(name) => *name == *var,
            Expr::Fun { arg, body } => *arg != *var && body.is_free(var),
            Expr::App { left, right, .. } => left.is_free(var) || right.is_free(var),
        }
    }

    /// Free variables of the expression, in string order.
    pub fn free_vars(&self) -> (r: Vec<String>)
        ensures
            strictly_sorted(texts(r@)),
            texts(r@).to_set() == free_vars_spec(self@),
        decreases self,
    {
        match self {
            Expr::Var(name) => {
                let mut set: Vec<String> = Vec::new();
                assert(texts(set@).to_set() =~= Set::<Seq<char>>::empty());
                sorted_insert(&mut set, name.clone());
                assert(Set::<Seq<char>>::empty().insert(name@) =~= set![name@]);
                set
            },
            Expr::Fun { arg, body } => {
                let mut set = body.free_vars();
                sorted_remove(&mut set, arg);
                set
            },
            Expr::App { left, right, .. } => {
                let mut set = left.free_vars();
                let other = right.free_vars();
                sorted_union(&mut set, &other);
                set
            },
        }
    }

    /// Capture-avoiding substitution of `replacement` for the free
    /// occurrences of `var`.
    pub fn substitute(&self, var: &String, replacement: &Expr) -> (r: Expr)
        ensures
            r@ == subst(self@, var@, replacement@),
            replacement@ is Var ==> size(r@) == size(self@),
        decreases size(self@),
    {
        proof {
            if replacement@ is Var {
                lemma_subst_var_size(size(self@), self@, var@, replacement@->Var_0);
            }
        }
        match self {
            Expr::Var(name) => {
                if *name == *var {
                    replacement.duplicate()
                } else {
                    self.duplicate()
                }
            },
            // There is an inner function with the same argument name
            Expr::Fun { arg, body } => {
                if *arg == *var {
                    return self.duplicate();
                }
                if replacement.is_free(arg) {
                    // Do alpha conversion here
                    let mut avoid = replacement.free_vars();
                    let body_free = body.free_vars();
                    sorted_union(&mut avoid, &body_free);
                    sorted_insert(&mut avoid, var.clone());
                    proof {
                        lemma_sorted_elements(texts(avoid@));
                    }
                    let new_arg = fresh_var(&avoid, arg);
                    let new_body = body.substitute(arg, &Expr::Var(new_arg.clone()));
                    proof {
                        lemma_subst_fuel((size(self@) - 1) as nat, size(body@), body@, arg@, ExprV::Var(new_arg@));
                        lemma_subst_fuel((size(self@) - 1) as nat, size(new_body@), new_body@, var@, replacement@);
                    }
                    let inner = new_body.substitute(var, replacement);
                    Expr::Fun { arg: new_arg, body: Box::new(inner) }
                } else {
                    proof {
                        lemma_subst_fuel((size(self@) - 1) as nat, size(body@), body@, var@, replacement@);
                    }
                    Expr::Fun { arg: arg.clone(), body: Box::new(body.substitute(var, replacement)) }
                }
            },
            Expr::App { left, right, right_first } => {
                proof {
                    lemma_subst_fuel((size(self@) - 1) as nat, size(left@), left@, var@, replacement@);
                    lemma_subst_fuel((size(self@) - 1) as nat, size(right@), right@, var@, replacement@);
                }
                Expr::App {
                    left: Box::new(left.substitute(var, replacement)),
                    right: Box::new(right.substitute(var, replacement)),
                    right_first: *right_first,
                }
            },
        }
    }
}


/// The outcome of one reduction step: the next term, a normal form, or a
/// step that would unfold the macro `name` whose body ends right after a
/// `\` (parsing such a body panics).
pub enum StepV {
    Next(ExprV),
    Normal,
    Stuck(Seq<char>),
}

/// One reduction step at the variable `name`: the parsed body of the macro
/// `name`; nothing for a name that is no macro or whose body does not parse;
/// stuck where parsing the body runs into a lambda cut off after its `\`.
pub open spec fn macro_step(macros: Map<Seq<char>, Seq<char>>, name: Seq<char>) -> StepV {
    if macros.contains_key(name) {
        match parse_spec(macros[name]) {
            Ok(e) => StepV::Next(e),
            Err(Some(_)) => StepV::Normal,
            Err(None) => StepV::Stuck(name),
        }
    } else {
        StepV::Normal
    }
}

/// One step of normal-order reduction, macros being expanded one step at a
/// time when reduction reaches them: a redex at the head is contracted; a
/// macro at the head is unfolded; otherwise the leftmost-outermost
/// reducible part is reduced: the function before its argument.
pub open spec fn step_spec(e: ExprV, macros: Map<Seq<char>, Seq<char>>) -> StepV
    decreases e,
{
    match e {
        ExprV::Var(name) => macro_step(macros, name),
        ExprV::Fun(arg, body) => match step_spec(*body, macros) {
            StepV::Next(b) => StepV::Next(ExprV::Fun(arg, Box::new(b))),
            other => other,
        },
        ExprV::App(left, right, _) => {
            if let ExprV::Fun(arg, body) = *left {
                StepV::Next(subst(*body, arg, *right))
            } else {
                let head = if let ExprV::Var(name) = *left {
                    macro_step(macros, name)
                } else {
                    StepV::Normal
                };
                match head {
                    StepV::Next(x) => StepV::Next(ExprV::App(Box::new(x), right, false)),
                    StepV::Stuck(n) => StepV::Stuck(n),
                    StepV::Normal => match step_spec(*left, macros) {
                        StepV::Next(l) => StepV::Next(ExprV::App(Box::new(l), right, false)),
                        StepV::Stuck(n) => StepV::Stuck(n),
                        StepV::Normal => match step_spec(*right, macros) {
                            StepV::Next(r) => StepV::Next(ExprV::App(left, Box::new(r), false)),
                            other => other,
                        },
                    },
                }
            }
        },
    }
}

/// The term after at most `n` reduction steps, stopping at a normal form, or
/// the macro that a step got stuck on.
pub open spec fn run_spec(e: ExprV, macros: Map<Seq<char>, Seq<char>>, n: nat) -> Result<ExprV, Seq<char>>
    decreases n,
{
    if n == 0 {
        Ok(e)
    } else {
        match step_spec(e, macros) {
            StepV::Next(next) => run_spec(next, macros, (n - 1) as nat),
            StepV::Normal => Ok(e),
            StepV::Stuck(name) => Err(name),
        }
    }
}

/// The outcome of one reduction step.
#[derive(Debug)]
pub enum Step {
    /// The term after the step.
    Next(Expr),
    /// The term is in normal form.
    Normal,
    /// The step would unfold this macro, whose body ends right after a `\`.
    Stuck(String),
}

impl View for Step {
    type V = StepV;

    open spec fn view(&self) -> StepV {
        match self {
            Step::Next(e) => StepV::Next(e@),
            Step::Normal => StepV::Normal,
            Step::Stuck(n) => StepV::Stuck(n@),
        }
    }
}

impl Expr {
    fn expand_macro(name: &String, preprocessor: &Preprocessor) -> (r: Step)
        ensures
            r@ == macro_step(preprocessor.macros_spec(), name@),
    {
        match preprocessor.get_macro_expansion(name) {
            Some(body) => {
                assert(preprocessor.macros_spec().contains_key(name@));
                match try_parse_expr(body) {
                    Some(Ok(e)) => Step::Next(e),
                    Some(Err(_)) => Step::Normal,
                    None => Step::Stuck(name.clone()),
                }
            },
            None => Step::Normal,
        }
    }

    /// One step of normal-order reduction, expanding a macro when reduction
    /// reaches it: the next term, a normal form, or the macro whose body ends
    /// right after a `\` that the step would unfold.
    pub fn beta_reduce_with_macros(&self, preprocessor: &Preprocessor) -> (r: Step)
        ensures
            r@ == step_spec(self@, preprocessor.macros_spec()),
        decreases self,
    {
        match self {
            Expr::Var(name) => Self::expand_macro(name, preprocessor),
            Expr::Fun { arg, body } => match body.beta_reduce_with_macros(preprocessor) {
                Step::Next(new_body) => Step::Next(Expr::Fun { arg: arg.clone(), body: Box::new(new_body) }),
                other => other,
            },
            Expr::App { left, right, .. } => {
                if let Expr::Fun { arg, body } = &**left {
                    assert(left@ == ExprV::Fun(arg@, Box::new(body@)));
                    return Step::Next(body.substitute(arg, right));
                }
                assert(!(left@ is Fun));
                if let Expr::Var(name) = &**left {
                    assert(left@ == ExprV::Var(name@));
                    match Self::expand_macro(name, preprocessor) {
                        Step::Next(expanded) => {
                            return Step::Next(
                                Expr::App {
                                    left: Box::new(expanded),
                                    right: Box::new(right.duplicate()),
                                    right_first: false,
                                },
                            );
                        },
                        Step::Stuck(n) => {
                            return Step::Stuck(n);
                        },
                        Step::Normal => {},
                    }
                }
                match left.beta_reduce_with_macros(preprocessor) {
                    Step::Next(new_left) => Step::Next(
                        Expr::App {
                            left: Box::new(new_left),
                            right: Box::new(right.duplicate()),
                            right_first: false,
                        },
                    ),
                    Step::Stuck(n) => Step::Stuck(n),
                    Step::Normal => match right.beta_reduce_with_macros(preprocessor) {
                        Step::Next(new_right) => Step::Next(
                            Expr::App {
                                left: Box::new(left.duplicate()),
                                right: Box::new(new_right),
                                right_first: false,
                            },
                        ),
                        other => other,
                    },
                }
            },
        }
    }

    /// Reduce to normal form: the term after `u64::MAX` reduction steps, or
    /// after fewer where a normal form is reached; or the macro whose body
    /// ends right after a `\` that a step would unfold.
    pub fn normalize_with_macros(&self, preprocessor: &Preprocessor) -> (r: Result<Expr, String>)
        ensures
            match (r, run_spec(self@, preprocessor.macros_spec(), u64::MAX as nat)) {
                (Ok(e), Ok(v)) => e@ == v,
                (Err(n), Err(m)) => n@ == m,
                _ => false,
            },
    {
        let ghost macros = preprocessor.macros_spec();
        let mut current = self.duplicate();
        let mut remaining: u64 = u64::MAX;
        while remaining > 0
            invariant
                macros == preprocessor.macros_spec(),
                run_spec(self@, macros, u64::MAX as nat) == run_spec(current@, macros, remaining as nat),
            decreases remaining,
        {
            match current.beta_reduce_with_macros(preprocessor) {
                Step::Next(next) => {
                    current = next;
                    remaining = remaining - 1;
                },
                Step::Normal => {
                    return Ok(current);
                },
                Step::Stuck(name) => {
                    return Err(name);
                },
            }
        }
        Ok(current)
    }
}

/// Whether `e` holds, anywhere inside it, something that reduction acts on:
/// an application whose function is a lambda (a beta-redex), or a variable
/// naming a macro whose body parses or is cut off after a `\`.
pub open spec fn has_redex(e: ExprV, macros: Map<Seq<char>, Seq<char>>) -> bool
    decreases e,
{
    match e {
        ExprV::Var(name) => macros.contains_key(name) && !(parse_spec(macros[name]) is Err && parse_spec(
            macros[name],
        )->Err_0 is Some),
        ExprV::Fun(_, body) => has_redex(*body, macros),
        ExprV::App(left, right, _) => (*left is Fun) || has_redex(*left, macros) || has_redex(*right, macros),
    }
}

/// A reduction step only contracts a beta-redex or unfolds a macro: a term
/// is a normal form exactly when it holds neither. In particular no step
/// rewrites a lambda other than by reducing inside its body (no
/// eta-contraction).
pub proof fn lemma_normal_iff_no_redex(e: ExprV, macros: Map<Seq<char>, Seq<char>>)
    ensures
        (step_spec(e, macros) is Normal) <==> !has_redex(e, macros),
    decreases e,
{
    match e {
        ExprV::Var(name) => {},
        ExprV::Fun(_, body) => lemma_normal_iff_no_redex(*body, macros),
        ExprV::App(left, right, _) => {
            lemma_normal_iff_no_redex(*left, macros);
            lemma_normal_iff_no_redex(*right, macros);
        },
    }
}

/// A lambda whose body is a normal form is a normal form.
pub proof fn lemma_lambda_of_normal_is_normal(arg: Seq<char>, body: ExprV, macros: Map<Seq<char>, Seq<char>>)
    requires
        step_spec(body, macros) is Normal,
    ensures
        step_spec(ExprV::Fun(arg, Box::new(body)), macros) is Normal,
{
    lemma_normal_iff_no_redex(body, macros);
    lemma_normal_iff_no_redex(ExprV::Fun(arg, Box::new(body)), macros);
}


/// Normal order: in an application the function is reduced before its
/// argument. An application of a lambda contracts to the lambda's body with
/// the argument substituted for the parameter; while the function part can
/// still step, a step leaves the argument as it is.
pub proof fn lemma_function_before_argument(
    left: ExprV,
    right: ExprV,
    right_first: bool,
    macros: Map<Seq<char>, Seq<char>>,
)
    ensures
        left matches ExprV::Fun(arg, body) ==> step_spec(ExprV::App(Box::new(left), Box::new(right), right_first), macros)
            == StepV::Next(subst(*body, arg, right)),
        !(left is Fun) && has_redex(left, macros) ==> (step_spec(ExprV::App(Box::new(left), Box::new(right), right_first), macros) matches StepV::Next(
            x,
        ) ==> x matches ExprV::App(_, r, _) && *r == right),
{
    lemma_normal_iff_no_redex(left, macros);
}


/// Reduction steps inside a term only at the place normal order picks: a
/// lambda steps exactly as its body does, keeping its parameter; an
/// application whose function is neither a lambda nor a macro name steps its
/// function while that can step, and its argument once the function is a
/// normal form.
pub proof fn lemma_steps_inside(e: ExprV, macros: Map<Seq<char>, Seq<char>>)
    ensures
        e matches ExprV::Fun(arg, body) ==> match step_spec(*body, macros) {
            StepV::Next(b) => step_spec(e, macros) == StepV::Next(ExprV::Fun(arg, Box::new(b))),
            other => step_spec(e, macros) == other,
        },
        e matches ExprV::App(left, right, _) ==> (!(*left is Fun) && macro_step_of(*left, macros) is Normal ==> match step_spec(*left, macros) {
            StepV::Next(l) => step_spec(e, macros) == StepV::Next(ExprV::App(Box::new(l), right, false)),
            StepV::Stuck(n) => step_spec(e, macros) == StepV::Stuck(n),
            StepV::Normal => match step_spec(*right, macros) {
                StepV::Next(r) => step_spec(e, macros) == StepV::Next(ExprV::App(left, Box::new(r), false)),
                other => step_spec(e, macros) == other,
            },
        }),
{
}

/// What unfolding `e` gives when it is a variable: the macro step of that
/// name; nothing otherwise.
pub open spec fn macro_step_of(e: ExprV, macros: Map<Seq<char>, Seq<char>>) -> StepV {
    match e {
        ExprV::Var(name) => macro_step(macros, name),
        _ => StepV::Normal,
    }
}


/// Reduction gets stuck only on a macro whose body ends right after a `\`.
pub proof fn lemma_stuck_only_on_cut_off_macros(e: ExprV, macros: Map<Seq<char>, Seq<char>>)
    ensures
        step_spec(e, macros) matches StepV::Stuck(n) ==> macros.contains_key(n) && parse_stuck(macros[n]),
    decreases e,
{
    match e {
        ExprV::Fun(_, body) => lemma_stuck_only_on_cut_off_macros(*body, macros),
        ExprV::App(left, right, _) => {
            lemma_stuck_only_on_cut_off_macros(*left, macros);
            lemma_stuck_only_on_cut_off_macros(*right, macros);
        },
        _ => {},
    }
}

pub proof fn lemma_free_vars_finite(e: ExprV)
    ensures
        free_vars_spec(e).finite(),
    decreases e,
{
    match e {
        ExprV::Fun(_, body) => lemma_free_vars_finite(*body),
        ExprV::App(left, right, _) => {
            lemma_free_vars_finite(*left);
            lemma_free_vars_finite(*right);
        },
        _ => {},
    }
}

proof fn lemma_subst_free_vars(n: nat, e: ExprV, x: Seq<char>, r: ExprV)
    requires
        n >= size(e),
    ensures
        free_vars_spec(subst_n(n, e, x, r)).subset_of(free_vars_spec(e).remove(x).union(free_vars_spec(r))),
        free_vars_spec(e).remove(x).subset_of(free_vars_spec(subst_n(n, e, x, r))),
        free_vars_spec(e).contains(x) ==> free_vars_spec(r).subset_of(free_vars_spec(subst_n(n, e, x, r))),
        !free_vars_spec(e).contains(x) ==> free_vars_spec(subst_n(n, e, x, r)).subset_of(free_vars_spec(e)),
    decreases n,
{
    match e {
        ExprV::Var(name) => {},
        ExprV::Fun(arg, body) => {
            if arg != x {
                if free_vars_spec(r).contains(arg) {
                    let fb = free_vars_spec(*body);
                    let fr = free_vars_spec(r);
                    lemma_free_vars_finite(*body);
                    lemma_free_vars_finite(r);
                    lemma_sorted_elements_exist(fr.union(fb).insert(x));
                    let avoid = sorted_elements(fr.union(fb).insert(x));
                    let new_arg = fresh_spec(avoid, arg);
                    lemma_fresh(avoid, arg);
                    assert(!fr.contains(new_arg) && !fb.contains(new_arg) && new_arg != x) by {
                        if fr.union(fb).insert(x).contains(new_arg) {
                            assert(avoid.to_set().contains(new_arg));
                        }
                    }
                    let v = ExprV::Var(new_arg);
                    assert(free_vars_spec(v) =~= set![new_arg]);
                    lemma_subst_free_vars((n - 1) as nat, *body, arg, v);
                    let nb = subst_n((n - 1) as nat, *body, arg, v);
                    lemma_subst_var_size((n - 1) as nat, *body, arg, new_arg);
                    lemma_subst_free_vars((n - 1) as nat, nb, x, r);
                    let s = subst_n((n - 1) as nat, nb, x, r);
                    let res = ExprV::Fun(new_arg, Box::new(s));
                    assert(subst_n(n, e, x, r) == res);
                    assert(free_vars_spec(res).subset_of(free_vars_spec(e).remove(x).union(fr))) by {
                        assert forall|y: Seq<char>| free_vars_spec(res).contains(y) implies free_vars_spec(
                            e,
                        ).remove(x).union(fr).contains(y) by {
                            assert(free_vars_spec(s).contains(y) && y != new_arg);
                        }
                    }
                    assert(free_vars_spec(e).remove(x).subset_of(free_vars_spec(res))) by {
                        assert forall|y: Seq<char>| free_vars_spec(e).remove(x).contains(y) implies free_vars_spec(
                            res,
                        ).contains(y) by {
                            assert(fb.contains(y) && y != arg);
                            assert(free_vars_spec(nb).contains(y));
                        }
                    }
                    if free_vars_spec(e).contains(x) {
                        assert(free_vars_spec(nb).contains(x));
                        assert forall|y: Seq<char>| fr.contains(y) implies free_vars_spec(res).contains(y) by {
                            assert(free_vars_spec(s).contains(y));
                        }
                    } else {
                        assert(!free_vars_spec(nb).contains(x));
                        assert forall|y: Seq<char>| free_vars_spec(res).contains(y) implies free_vars_spec(
                            e,
                        ).contains(y) by {
                            assert(free_vars_spec(nb).contains(y) && y != new_arg);
                        }
                    }
                } else {
                    lemma_subst_free_vars((n - 1) as nat, *body, x, r);
                }
            }
        },
        ExprV::App(left, right, _) => {
            lemma_subst_free_vars((n - 1) as nat, *left, x, r);
            lemma_subst_free_vars((n - 1) as nat, *right, x, r);
        },
    }
}

/// Substitution is capture-avoiding: the free variables of `e[x := r]` are
/// those of `e` other than `x`, and, when `x` is free in `e`, those of `r`;
/// when `x` is not free in `e`, they are those of `e`.
pub proof fn lemma_substitution_free_vars(e: ExprV, x: Seq<char>, r: ExprV)
    ensures
        free_vars_spec(e).contains(x) ==> free_vars_spec(subst(e, x, r)) == free_vars_spec(e).remove(
            x,
        ).union(free_vars_spec(r)),
        !free_vars_spec(e).contains(x) ==> free_vars_spec(subst(e, x, r)) == free_vars_spec(e),
        free_vars_spec(e).remove(x).subset_of(free_vars_spec(subst(e, x, r))),
        free_vars_spec(subst(e, x, r)).subset_of(free_vars_spec(e).union(free_vars_spec(r))),
{
    lemma_subst_free_vars(size(e), e, x, r);
    if free_vars_spec(e).contains(x) {
        assert(free_vars_spec(subst(e, x, r)) =~= free_vars_spec(e).remove(x).union(free_vars_spec(r)));
    } else {
        assert(free_vars_spec(subst(e, x, r)) =~= free_vars_spec(e));
    }
}

/// Normalization finds the normal form that normal-order reduction reaches
/// in `n` steps, whenever `n` is at most `u64::MAX`.
pub proof fn lemma_normalize_reaches_normal_form(e: ExprV, macros: Map<Seq<char>, Seq<char>>, n: nat)
    requires
        n <= u64::MAX,
        run_spec(e, macros, n) matches Ok(v) && step_spec(v, macros) is Normal,
    ensures
        run_spec(e, macros, u64::MAX as nat) == run_spec(e, macros, n),
{
    lemma_run_stable(e, macros, n, u64::MAX as nat);
}

proof fn lemma_run_stable(e: ExprV, macros: Map<Seq<char>, Seq<char>>, n: nat, m: nat)
    requires
        n <= m,
        run_spec(e, macros, n) matches Ok(v) && step_spec(v, macros) is Normal,
    ensures
        run_spec(e, macros, m) == run_spec(e, macros, n),
    decreases n,
{
    if n == 0 {
        if m > 0 {
            assert(step_spec(e, macros) is Normal);
        }
    } else {
        match step_spec(e, macros) {
            StepV::Next(next) => lemma_run_stable(next, macros, (n - 1) as nat, (m - 1) as nat),
            _ => {},
        }
    }
}


/// Text of `e`; `parens` asks for parentheses around a lambda or an
/// application. An argument is parenthesized when it is a lambda or an
/// application, or when the application is marked `right_first`.
pub open spec fn show_spec(e: ExprV, parens: bool) -> Seq<char>
    decreases e,
{
    match e {
        ExprV::Var(name) => name,
        ExprV::Fun(arg, body) => {
            let inner = "\\"@ + arg + "."@ + show_spec(*body, false);
            if parens { "("@ + inner + ")"@ } else { inner }
        },
        ExprV::App(left, right, right_first) => {
            let inner = show_spec(*left, (*left) is Fun) + " "@ + show_spec(
                *right,
                (*right) is Fun || (*right) is App || right_first,
            );
            if parens { "("@ + inner + ")"@ } else { inner }
        },
    }
}

impl Expr {
    /// Appends the text of the expression to `sv`; `parantheses` asks for
    /// parentheses around a lambda or an application.
    pub fn show(&self, sv: &mut String, parantheses: bool)
        ensures
            final(sv)@ == old(sv)@ + show_spec(self@, parantheses),
        decreases self,
    {
        match self {
            Expr::Var(name) => append_str(sv, name.as_str()),
            Expr::Fun { arg, body } => {
                if parantheses {
                    append_str(sv, "(");
                }
                append_str(sv, "\\");
                append_str(sv, arg.as_str());
                append_str(sv, ".");
                body.show(sv, false);
                if parantheses {
                    append_str(sv, ")");
                }
                let ghost inner = "\\"@ + arg@ + "."@ + show_spec(body@, false);
                if parantheses {
                    assert(final(sv)@ =~= old(sv)@ + ("("@ + inner + ")"@));
                } else {
                    assert(final(sv)@ =~= old(sv)@ + inner);
                }
            },
            Expr::App { left, right, right_first } => {
                if parantheses {
                    append_str(sv, "(");
                }
                let lp = match &**left {
                    Expr::Fun { .. } => true,
                    _ => false,
                };
                left.show(sv, lp);
                append_str(sv, " ");
                let rp = match &**right {
                    Expr::Fun { .. } => true,
                    Expr::App { .. } => true,
                    _ => *right_first,
                };
                right.show(sv, rp);
                if parantheses {
                    append_str(sv, ")");
                }
                let ghost inner = show_spec(left@, lp) + " "@ + show_spec(right@, rp);
                if parantheses {
                    assert(final(sv)@ =~= old(sv)@ + ("("@ + inner + ")"@));
                } else {
                    assert(final(sv)@ =~= old(sv)@ + inner);
                }
            },
        }
    }
}

} // verus!
