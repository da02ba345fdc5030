//! Closure conversion: surface `Expr` -> lifted `Program`.
//!
//! Every lambda becomes a top-level function taking `(self, arg)`. The
//! variables it uses from enclosing scopes are collected into an environment
//! stored alongside the function pointer in a heap closure, so a closure stays
//! correct after the frame that built it has returned.
use vstd::prelude::*;

use crate::compiler::ast::{free_vars_spec, term_size, Expr, ExprV};
use crate::text::{
    append_str, lemma_seq_lt_irreflexive, lemma_sorted_elements, seq_lt, sorted_elements, string_of,
    strictly_sorted, text_is, texts,
};

verus! {

/// Runtime symbol of the primitive named `name`, if it is one.
pub open spec fn primitive_spec(name: Seq<char>) -> Option<Seq<char>> {
    if name == "+"@ {
        Some("imp_prim_add"@)
    } else if name == "-"@ {
        Some("imp_prim_sub"@)
    } else if name == "*"@ {
        Some("imp_prim_mul"@)
    } else if name == "/"@ {
        Some("imp_prim_div"@)
    } else if name == "%"@ {
        Some("imp_prim_rem"@)
    } else if name == "<"@ {
        Some("imp_prim_lt"@)
    } else if name == ">"@ {
        Some("imp_prim_gt"@)
    } else if name == "<="@ {
        Some("imp_prim_le"@)
    } else if name == ">="@ {
        Some("imp_prim_ge"@)
    } else if name == "="@ {
        Some("imp_prim_eq"@)
    } else if name == "/="@ {
        Some("imp_prim_ne"@)
    } else if name == "true"@ {
        Some("imp_prim_true"@)
    } else if name == "false"@ {
        Some("imp_prim_false"@)
    } else if name == "print"@ {
        Some("imp_prim_print"@)
    } else {
        None
    }
}

pub open spec fn symbol_view(s: Option<&'static str>) -> Option<Seq<char>> {
    match s {
        Some(t) => Some(t@),
        None => None,
    }
}

/// Surface name -> runtime symbol for the primitives the runtime provides.
pub fn primitive_symbol(name: &String) -> (r: Option<&'static str>)
    ensures
        symbol_view(r) == primitive_spec(name@),
{
    if text_is(name, "+") {
        Some("imp_prim_add")
    } else if text_is(name, "-") {
        Some("imp_prim_sub")
    } else if text_is(name, "*") {
        Some("imp_prim_mul")
    } else if text_is(name, "/") {
        Some("imp_prim_div")
    } else if text_is(name, "%") {
        Some("imp_prim_rem")
    } else if text_is(name, "<") {
        Some("imp_prim_lt")
    } else if text_is(name, ">") {
        Some("imp_prim_gt")
    } else if text_is(name, "<=") {
        Some("imp_prim_le")
    } else if text_is(name, ">=") {
        Some("imp_prim_ge")
    } else if text_is(name, "=") {
        Some("imp_prim_eq")
    } else if text_is(name, "/=") {
        Some("imp_prim_ne")
    } else if text_is(name, "true") {
        Some("imp_prim_true")
    } else if text_is(name, "false") {
        Some("imp_prim_false")
    } else if text_is(name, "print") {
        Some("imp_prim_print")
    } else {
        None
    }
}

/// How to fetch a captured value from the frame that is building a closure.
#[derive(Debug, Clone, Copy, PartialEq, Eq, Structural)]
pub enum Capture {
    Param,
    Env(usize),
}

/// A lifted term: every variable reference is already either the enclosing
/// function's parameter or a slot of its environment.
#[derive(Debug)]
pub enum Term {
    /// Untagged literal; codegen applies the `(n << 1) | 1` tag.
    Num(i64),
    /// Address of a runtime primitive global.
    Prim(&'static str),
    /// The enclosing function's argument.
    Param,
    /// Slot `i` of the enclosing function's captured environment.
    Env(usize),
    /// Allocate a closure over lifted function `lam`, filling its environment
    /// from the current frame.
    MakeClosure { lam: usize, captures: Vec<Capture> },
    App(Box<Term>, Box<Term>),
}

/// The mathematical value of a `Term`.
pub enum TermV {
    Num(int),
    Prim(Seq<char>),
    Param,
    Env(int),
    MakeClosure(int, Seq<Capture>),
    App(Box<TermV>, Box<TermV>),
}

impl View for Term {
    type V = TermV;

    open spec fn view(&self) -> TermV
        decreases self,
    {
        match self {
            Term::Num(n) => TermV::Num(*n as int),
            Term::Prim(s) => TermV::Prim(s@),
            Term::Param => TermV::Param,
            Term::Env(i) => TermV::Env(*i as int),
            Term::MakeClosure { lam, captures } => TermV::MakeClosure(*lam as int, captures@),
            Term::App(left, right) => TermV::App(
                Box::new((**left).view()),
                Box::new((**right).view()),
            ),
        }
    }
}

/// A lifted function.
#[derive(Debug)]
pub struct Lam {
    pub id: usize,
    pub param: String,
    /// Names of the captured slots, in environment order.
    pub env: Vec<String>,
    pub body: Term,
}

/// The mathematical value of a `Lam`.
pub struct LamV {
    pub id: int,
    pub param: Seq<char>,
    pub env: Seq<Seq<char>>,
    pub body: TermV,
}

impl View for Lam {
    type V = LamV;

    open spec fn view(&self) -> LamV {
        LamV { id: self.id as int, param: self.param@, env: texts(self.env@), body: self.body@ }
    }
}

/// One converted top-level expression.
#[derive(Debug)]
pub struct TopLevel {
    pub source: String,
    pub term: Term,
}

/// All lifted functions and top-level terms of a compilation unit.
#[derive(Debug)]
pub struct Program {
    pub lams: Vec<Lam>,
    pub tops: Vec<TopLevel>,
}

pub open spec fn lams_view(lams: Seq<Lam>) -> Seq<LamV> {
    lams.map_values(|l: Lam| l@)
}

/// The variables reachable from the function currently being compiled.
struct Frame<'a> {
    param: Option<&'a String>,
    env: &'a Vec<String>,
}

/// Index of the first occurrence of `x` in `s`.
pub open spec fn first_index(s: Seq<Seq<char>>, x: Seq<char>) -> Option<int>
    decreases s.len(),
{
    if s.len() == 0 {
        None
    } else if s.last() == x {
        match first_index(s.drop_last(), x) {
            Some(i) => Some(i),
            None => Some(s.len() - 1),
        }
    } else {
        first_index(s.drop_last(), x)
    }
}

proof fn lemma_first_index_step(s: Seq<Seq<char>>, k: int, x: Seq<char>)
    requires
        0 <= k < s.len(),
        forall|i: int| 0 <= i < k ==> s[i] != x,
    ensures
        s[k] == x ==> first_index(s, x) == Some(k),
        first_index(s, x) == (if s[k] == x { Some(k) } else { first_index(s, x) }),
    decreases s.len(),
{
    if s[k] == x {
        if k < s.len() - 1 {
            lemma_first_index_step(s.drop_last(), k, x);
        } else {
            lemma_first_index_none(s.drop_last(), x);
        }
    }
}

proof fn lemma_first_index_none(s: Seq<Seq<char>>, x: Seq<char>)
    requires
        forall|i: int| 0 <= i < s.len() ==> s[i] != x,
    ensures
        first_index(s, x) is None,
    decreases s.len(),
{
    if s.len() > 0 {
        lemma_first_index_none(s.drop_last(), x);
    }
}

proof fn lemma_first_index_bound(s: Seq<Seq<char>>, x: Seq<char>)
    ensures
        first_index(s, x) matches Some(i) ==> 0 <= i < s.len() && s[i] == x,
    decreases s.len(),
{
    if s.len() > 0 {
        lemma_first_index_bound(s.drop_last(), x);
    }
}

/// Where `name` is found from a frame with parameter `param` and environment
/// `env`: the parameter first, then the first environment slot of that name.
pub open spec fn lookup_spec(param: Option<Seq<char>>, env: Seq<Seq<char>>, name: Seq<char>) -> Option<
    Capture,
> {
    if param == Some(name) {
        Some(Capture::Param)
    } else {
        match first_index(env, name) {
            Some(i) => Some(Capture::Env(i as usize)),
            None => None,
        }
    }
}

pub open spec fn param_view(p: Option<&String>) -> Option<Seq<char>> {
    match p {
        Some(s) => Some(s@),
        None => None,
    }
}

impl<'a> Frame<'a> {
    spec fn param_spec(&self) -> Option<Seq<char>> {
        param_view(self.param)
    }

    spec fn env_spec(&self) -> Seq<Seq<char>> {
        texts(self.env@)
    }

    fn lookup(&self, name: &String) -> (r: Option<Capture>)
        ensures
            r == lookup_spec(self.param_spec(), self.env_spec(), name@),
    {
        match self.param {
            Some(p) => {
                if *p == *name {
                    return Some(Capture::Param);
                }
                assert(self.param_spec() == Some(p@));
            },
            None => {},
        }
        let ghost env = self.env_spec();
        let mut i: usize = 0;
        while i < self.env.len()
            invariant
                env == texts(self.env@),
                self.param_spec() != Some(name@),
                0 <= i <= env.len(),
                forall|k: int| 0 <= k < i ==> env[k] != name@,
            decreases self.env.len() - i,
        {
            assert(env[i as int] == self.env@[i as int]@);
            if self.env[i] == *name {
                proof {
                    lemma_first_index_step(env, i as int, name@);
                }
                assert(first_index(env, name@) == Some(i as int));
                return Some(Capture::Env(i));
            }
            i = i + 1;
        }
        proof {
            lemma_first_index_none(env, name@);
        }
        None
    }
}

/// Error for a name that resolves nowhere.
pub open spec fn unbound_msg(name: Seq<char>) -> Seq<char> {
    "unbound variable '"@ + name + "'"@
}

/// Whether the name `n`, free in a lambda built in the frame `(param, env)`,
/// goes into its environment: unless it is a primitive that no enclosing
/// lambda binds, which is referenced as a global.
pub open spec fn captured(param: Option<Seq<char>>, env: Seq<Seq<char>>, n: Seq<char>) -> bool {
    primitive_spec(n) is None || lookup_spec(param, env, n) is Some
}

/// Environment layout of the lambda `\arg.body` built in the frame
/// `(param, env)`: the body's free variables minus the parameter and minus
/// the primitives that no enclosing lambda binds, in string order.
pub open spec fn env_layout(arg: Seq<char>, body: ExprV, param: Option<Seq<char>>, env: Seq<Seq<char>>) -> Seq<
    Seq<char>,
> {
    sorted_elements(free_vars_spec(body).remove(arg).filter(|n: Seq<char>| captured(param, env, n)))
}

/// How each name of `names` is fetched from the frame, or the first name
/// that resolves nowhere.
pub open spec fn captures_spec(
    param: Option<Seq<char>>,
    env: Seq<Seq<char>>,
    names: Seq<Seq<char>>,
) -> Result<Seq<Capture>, Seq<char>>
    decreases names.len(),
{
    if names.len() == 0 {
        Ok(Seq::empty())
    } else {
        match captures_spec(param, env, names.drop_last()) {
            Ok(cs) => match lookup_spec(param, env, names.last()) {
                Some(c) => Ok(cs.push(c)),
                None => Err(names.last()),
            },
            Err(n) => Err(n),
        }
    }
}

pub open spec fn capture_term(c: Capture) -> TermV {
    match c {
        Capture::Param => TermV::Param,
        Capture::Env(i) => TermV::Env(i as int),
    }
}

/// Closure conversion of `e` in the frame `(param, env)`, starting from the
/// lifted functions `lams`: the lifted functions afterwards, and the term or
/// the error. A lambda's id is reserved (with a placeholder body) before its
/// body is converted, so nested lambdas get larger ids than their parent.
pub open spec fn conv(
    lams: Seq<LamV>,
    e: ExprV,
    param: Option<Seq<char>>,
    env: Seq<Seq<char>>,
) -> (Seq<LamV>, Result<TermV, Seq<char>>)
    decreases e,
{
    match e {
        ExprV::Num(n) => (lams, Ok(TermV::Num(n))),
        ExprV::Var(name) => match lookup_spec(param, env, name) {
            Some(c) => (lams, Ok(capture_term(c))),
            None => match primitive_spec(name) {
                Some(s) => (lams, Ok(TermV::Prim(s))),
                None => (lams, Err(unbound_msg(name))),
            },
        },
        ExprV::App(left, right) => {
            let (lams1, rl) = conv(lams, *left, param, env);
            match rl {
                Err(m) => (lams1, Err(m)),
                Ok(tl) => {
                    let (lams2, rr) = conv(lams1, *right, param, env);
                    match rr {
                        Err(m) => (lams2, Err(m)),
                        Ok(tr) => (lams2, Ok(TermV::App(Box::new(tl), Box::new(tr)))),
                    }
                },
            }
        },
        ExprV::Fun(arg, body) => {
            let layout = env_layout(arg, *body, param, env);
            match captures_spec(param, env, layout) {
                Err(name) => (lams, Err(unbound_msg(name))),
                Ok(caps) => {
                    let id = lams.len() as int;
                    let placeholder = LamV { id, param: arg, env: layout, body: TermV::Num(0) };
                    let (lams2, rb) = conv(lams.push(placeholder), *body, Some(arg), layout);
                    match rb {
                        Err(m) => (lams2, Err(m)),
                        Ok(tb) => (
                            lams2.update(id, LamV { id, param: arg, env: layout, body: tb }),
                            Ok(TermV::MakeClosure(id, caps)),
                        ),
                    }
                },
            }
        },
    }
}

/// Closure-converts expressions one top-level expression at a time,
/// collecting the lifted functions.
pub struct Converter {
    lams: Vec<Lam>,
}

impl View for Converter {
    type V = Seq<LamV>;

    closed spec fn view(&self) -> Seq<LamV> {
        lams_view(self.lams@)
    }
}

/// Relates an executable result to its specification.
pub open spec fn term_result_matches(r: Result<Term, String>, s: Result<TermV, Seq<char>>) -> bool {
    match (r, s) {
        (Ok(t), Ok(u)) => t@ == u,
        (Err(e), Err(f)) => e@ == f,
        _ => false,
    }
}

/// Relates an executable top-level result to its specification.
pub open spec fn top_result_matches(r: Result<TopLevel, String>, source: Seq<char>, s: Result<TermV, Seq<char>>) -> bool {
    match (r, s) {
        (Ok(t), Ok(u)) => t.term@ == u && t.source@ == source,
        (Err(e), Err(f)) => e@ == f,
        _ => false,
    }
}

impl Converter {
    /// A converter with no lifted functions yet.
    pub fn new() -> (r: Converter)
        ensures
            r@ == Seq::<LamV>::empty(),
    {
        let r = Converter { lams: Vec::new() };
        assert(r@ =~= Seq::<LamV>::empty());
        r
    }

    /// Convert one closed top-level expression.
    pub fn convert_top(&mut self, source: &str, expr: &Expr) -> (r: Result<TopLevel, String>)
        ensures
            final(self)@ == conv(old(self)@, expr@, None, Seq::empty()).0,
            top_result_matches(r, source@, conv(old(self)@, expr@, None, Seq::empty()).1),
    {
        let env: Vec<String> = Vec::new();
        let frame = Frame { param: None, env: &env };
        assert(texts(env@) =~= Seq::<Seq<char>>::empty());
        let term = self.convert(expr, &frame)?;
        Ok(TopLevel { source: string_of(source), term })
    }

    /// The program made of the lifted functions and `tops`.
    pub fn finish(self, tops: Vec<TopLevel>) -> (r: Program)
        ensures
            lams_view(r.lams@) == self@,
            r.tops@ == tops@,
    {
        Program { lams: self.lams, tops }
    }

    fn convert(&mut self, expr: &Expr, frame: &Frame) -> (r: Result<Term, String>)
        ensures
            final(self)@.len() >= old(self)@.len(),
            final(self)@ == conv(old(self)@, expr@, frame.param_spec(), frame.env_spec()).0,
            term_result_matches(
                r,
                conv(old(self)@, expr@, frame.param_spec(), frame.env_spec()).1,
            ),
        decreases expr,
    {
        match expr {
            Expr::Num(n) => Ok(Term::Num(*n)),
            Expr::Var(name) => match frame.lookup(name) {
                Some(Capture::Param) => Ok(Term::Param),
                Some(Capture::Env(i)) => Ok(Term::Env(i)),
                // Primitives are globals, so they are referenced directly
                // rather than captured.
                None => match primitive_symbol(name) {
                    Some(symbol) => Ok(Term::Prim(symbol)),
                    None => {
                        let mut e = string_of("unbound variable '");
                        append_str(&mut e, name.as_str());
                        append_str(&mut e, "'");
                        Err(e)
                    },
                },
            },
            Expr::App(left, right) => {
                let l = self.convert(left, frame)?;
                let r = self.convert(right, frame)?;
                Ok(Term::App(Box::new(l), Box::new(r)))
            },
            Expr::Fun { arg, body } => {
                let env = Self::layout(frame, arg, body);
                let ghost layout = env_layout(arg@, body@, frame.param_spec(), frame.env_spec());
                let captures = Self::captures(frame, &env)?;
                // Reserve the id before converting the body so nested lambdas
                // get larger ids than their parent.
                let id = self.lams.len();
                let ghost lams0 = self@;
                let ghost placeholder = LamV { id: id as int, param: arg@, env: layout, body: TermV::Num(0) };
                self.lams.push(Lam { id, param: arg.clone(), env: Self::copy_names(&env), body: Term::Num(0) });
                assert(self@ =~= lams0.push(placeholder));
                let inner = Frame { param: Some(arg), env: &env };
                let converted = self.convert(body, &inner)?;
                let ghost lams2 = self@;
                assert(self.lams@.len() == lams2.len());
                self.lams.set(id, Lam { id, param: arg.clone(), env: env, body: converted });
                assert(self@ =~= lams2.update(id as int, LamV { id: id as int, param: arg@, env: layout, body: converted@ }));
                Ok(Term::MakeClosure { lam: id, captures })
            },
        }
    }

    /// How each name of `names` is fetched from `frame`; an error names the
    /// first one that resolves nowhere.
    fn captures(frame: &Frame, names: &Vec<String>) -> (r: Result<Vec<Capture>, String>)
        ensures
            match (r, captures_spec(frame.param_spec(), frame.env_spec(), texts(names@))) {
                (Ok(cs), Ok(ds)) => cs@ == ds,
                (Err(e), Err(n)) => e@ == unbound_msg(n),
                _ => false,
            },
    {
        let ghost layout = texts(names@);
        let mut captures: Vec<Capture> = Vec::new();
        let mut k: usize = 0;
        while k < names.len()
            invariant
                texts(names@) == layout,
                0 <= k <= names@.len(),
                captures_spec(frame.param_spec(), frame.env_spec(), layout.take(k as int))
                    == Ok::<Seq<Capture>, Seq<char>>(captures@),
            decreases names.len() - k,
        {
            assert(layout.take(k + 1).drop_last() =~= layout.take(k as int));
            match frame.lookup(&names[k]) {
                Some(c) => {
                    captures.push(c);
                },
                None => {
                    assert(layout.take(k + 1).last() == names@[k as int]@);
                    proof {
                        lemma_captures_prefix_err(
                            frame.param_spec(),
                            frame.env_spec(),
                            layout,
                            k as int + 1,
                        );
                    }
                    let mut e = string_of("unbound variable '");
                    append_str(&mut e, names[k].as_str());
                    append_str(&mut e, "'");
                    return Err(e);
                },
            }
            k = k + 1;
        }
        assert(layout.take(names@.len() as int) =~= layout);
        Ok(captures)
    }

    /// The environment layout of `\arg.body` built in `frame`.
    fn layout(frame: &Frame, arg: &String, body: &Expr) -> (r: Vec<String>)
        ensures
            texts(r@) == env_layout(arg@, body@, frame.param_spec(), frame.env_spec()),
            strictly_sorted(texts(r@)),
    {
        let mut free = body.free_vars();
        crate::text::sorted_remove(&mut free, arg);
        let ghost s = free_vars_spec(body@).remove(arg@);
        let mut env: Vec<String> = Vec::new();
        let mut i: usize = 0;
        while i < free.len()
            invariant
                texts(free@).to_set() == s,
                strictly_sorted(texts(free@)),
                0 <= i <= free@.len(),
                texts(env@) == texts(free@).take(i as int).filter(|n: Seq<char>| captured(frame.param_spec(), frame.env_spec(), n)),
            decreases free.len() - i,
        {
            assert(texts(free@).take(i + 1).drop_last() =~= texts(free@).take(i as int));
            proof {
                reveal_with_fuel(Seq::<_>::filter, 1);
            }
            if primitive_symbol(&free[i]).is_none() || frame.lookup(&free[i]).is_some() {
                env.push(free[i].clone());
                assert(texts(env@) =~= texts(free@).take(i as int).filter(|n: Seq<char>| captured(frame.param_spec(), frame.env_spec(), n)).push(free@[i as int]@));
            }
            i = i + 1;
        }
        assert(texts(free@).take(free@.len() as int) =~= texts(free@));
        proof {
            lemma_filter_sorted(texts(free@), |n: Seq<char>| captured(frame.param_spec(), frame.env_spec(), n));
            lemma_sorted_elements(texts(env@));
            assert(texts(env@).to_set() =~= s.filter(|n: Seq<char>| captured(frame.param_spec(), frame.env_spec(), n)));
        }
        env
    }

    fn copy_names(v: &Vec<String>) -> (r: Vec<String>)
        ensures
            texts(r@) == texts(v@),
    {
        let mut r: Vec<String> = Vec::new();
        let mut i: usize = 0;
        while i < v.len()
            invariant
                0 <= i <= v@.len(),
                r@.len() == i,
                texts(r@) == texts(v@).take(i as int),
            decreases v.len() - i,
        {
            let ghost r0 = r@;
            let s = v[i].clone();
            r.push(s);
            assert(r@ == r0.push(v@[i as int]));
            assert forall|j: int| 0 <= j < i + 1 implies #[trigger] texts(r@)[j] == texts(v@)[j] by {
                if j < i {
                    assert(texts(r0)[j] == texts(v@).take(i as int)[j]);
                }
            }
            assert(texts(r@) =~= texts(v@).take(i + 1));
            i = i + 1;
        }
        assert(texts(v@).take(v@.len() as int) =~= texts(v@));
        r
    }
}

proof fn lemma_captures_prefix_err(
    param: Option<Seq<char>>,
    env: Seq<Seq<char>>,
    names: Seq<Seq<char>>,
    k: int,
)
    requires
        0 < k <= names.len(),
        captures_spec(param, env, names.take(k)) is Err,
    ensures
        captures_spec(param, env, names) == captures_spec(param, env, names.take(k)),
    decreases names.len(),
{
    if k < names.len() {
        assert(names.drop_last().take(k) =~= names.take(k));
        lemma_captures_prefix_err(param, env, names.drop_last(), k);
    } else {
        assert(names.take(k) =~= names);
    }
}

/// Filtering keeps a sequence strictly sorted.
proof fn lemma_filter_sorted(v: Seq<Seq<char>>, p: spec_fn(Seq<char>) -> bool)
    requires
        strictly_sorted(v),
    ensures
        strictly_sorted(v.filter(p)),
        v.filter(p).to_set() == v.to_set().filter(p),
    decreases v.len(),
{
    reveal(Seq::filter);
    if v.len() > 0 {
        let w = v.drop_last();
        assert(strictly_sorted(w));
        lemma_filter_sorted(w, p);
        let fw = w.filter(p);
        if p(v.last()) {
            assert(v.filter(p) == fw.push(v.last()));
            assert forall|i: int| 0 <= i < fw.len() implies crate::text::seq_lt(
                #[trigger] fw[i],
                v.last(),
            ) by {
                assert(fw.to_set().contains(fw[i]));
                assert(w.to_set().contains(fw[i]));
                let j = choose|j: int| 0 <= j < w.len() && w[j] == fw[i];
                assert(v[j] == w[j]);
            }
            fw.lemma_push_to_set_commute(v.last());
        } else {
            assert(v.filter(p) == fw);
        }
        w.lemma_push_to_set_commute(v.last());
        assert(v =~= w.push(v.last()));
        assert(v.filter(p).to_set() =~= v.to_set().filter(p));
    } else {
        assert(v.filter(p) =~= v);
        assert(v.to_set().filter(p) =~= v.to_set());
    }
}


/// A capture reads the parameter only where there is one, and only slots
/// that exist.
pub open spec fn capture_wf(c: Capture, has_param: bool, env_len: int) -> bool {
    match c {
        Capture::Param => has_param,
        Capture::Env(i) => 0 <= i < env_len,
    }
}

/// `t` refers only to what the function it stands in has: the parameter
/// where there is one, slots `0..env_len` of its environment, and lifted
/// functions with ids from `min_lam` on, filling exactly their environment.
pub open spec fn term_wf(t: TermV, has_param: bool, env_len: int, lams: Seq<LamV>, min_lam: int) -> bool
    decreases t,
{
    match t {
        TermV::Num(_) => true,
        TermV::Prim(_) => true,
        TermV::Param => has_param,
        TermV::Env(i) => 0 <= i < env_len,
        TermV::MakeClosure(lam, caps) => {
            &&& 0 <= min_lam <= lam < lams.len()
            &&& caps.len() == lams[lam].env.len()
            &&& forall|k: int| 0 <= k < caps.len() ==> capture_wf(#[trigger] caps[k], has_param, env_len)
        },
        TermV::App(left, right) => term_wf(*left, has_param, env_len, lams, min_lam) && term_wf(
            *right,
            has_param,
            env_len,
            lams,
            min_lam,
        ),
    }
}

/// Every lifted function sits at the index of its id, has a sorted
/// environment, and a body that refers only to its own
/// parameter and environment and to lifted functions with larger ids.
pub open spec fn program_wf(lams: Seq<LamV>) -> bool {
    forall|i: int|
        0 <= i < lams.len() ==> {
            &&& (#[trigger] lams[i]).id == i
            &&& strictly_sorted(lams[i].env)
            &&& term_wf(lams[i].body, true, lams[i].env.len() as int, lams, i + 1)
        }
}

/// `b` keeps the lifted functions of `a`, with the same environments, and
/// may add more.
pub open spec fn envs_extend(a: Seq<LamV>, b: Seq<LamV>) -> bool {
    &&& a.len() <= b.len()
    &&& forall|i: int| 0 <= i < a.len() ==> (#[trigger] b[i]).env == a[i].env
}

pub(crate) proof fn lemma_term_wf_mono(t: TermV, hp: bool, el: int, a: Seq<LamV>, b: Seq<LamV>, m: int, m2: int)
    requires
        term_wf(t, hp, el, a, m),
        envs_extend(a, b),
        0 <= m2 <= m,
    ensures
        term_wf(t, hp, el, b, m2),
    decreases t,
{
    match t {
        TermV::App(left, right) => {
            lemma_term_wf_mono(*left, hp, el, a, b, m, m2);
            lemma_term_wf_mono(*right, hp, el, a, b, m, m2);
        },
        TermV::MakeClosure(lam, caps) => {
            assert(term_wf(TermV::MakeClosure(lam, caps), hp, el, a, m));
            assert(b[lam].env == a[lam].env);
        },
        _ => {},
    }
}

proof fn lemma_captures_wf(param: Option<Seq<char>>, env: Seq<Seq<char>>, names: Seq<Seq<char>>)
    ensures
        captures_spec(param, env, names) matches Ok(cs) ==> {
            &&& cs.len() == names.len()
            &&& forall|k: int| 0 <= k < cs.len() ==> capture_wf(#[trigger] cs[k], param is Some, env.len() as int)
        },
    decreases names.len(),
{
    if names.len() > 0 {
        lemma_captures_wf(param, env, names.drop_last());
        lemma_first_index_bound(env, names.last());
    }
}

pub proof fn lemma_free_vars_finite(e: ExprV)
    ensures
        free_vars_spec(e).finite(),
    decreases e,
{
    match e {
        ExprV::Fun(_, body) => lemma_free_vars_finite(*body),
        ExprV::App(left, right) => {
            lemma_free_vars_finite(*left);
            lemma_free_vars_finite(*right);
        },
        _ => {},
    }
}

proof fn lemma_conv_wf(lams: Seq<LamV>, e: ExprV, param: Option<Seq<char>>, env: Seq<Seq<char>>)
    requires
        program_wf(lams),
    ensures
        program_wf(conv(lams, e, param, env).0),
        envs_extend(lams, conv(lams, e, param, env).0),
        conv(lams, e, param, env).1 matches Ok(t) ==> term_wf(
            t,
            param is Some,
            env.len() as int,
            conv(lams, e, param, env).0,
            lams.len() as int,
        ),
    decreases e,
{
    match e {
        ExprV::Var(name) => {
            lemma_first_index_bound(env, name);
        },
        ExprV::App(left, right) => {
            lemma_conv_wf(lams, *left, param, env);
            let (lams1, rl) = conv(lams, *left, param, env);
            lemma_conv_wf(lams1, *right, param, env);
            let (lams2, rr) = conv(lams1, *right, param, env);
            if let Ok(tl) = rl {
                lemma_term_wf_mono(tl, param is Some, env.len() as int, lams1, lams2, lams.len() as int, lams.len() as int);
                if let Ok(tr) = rr {
                    lemma_term_wf_mono(tr, param is Some, env.len() as int, lams2, lams2, lams1.len() as int, lams.len() as int);
                }
            }
        },
        ExprV::Fun(arg, body) => {
            let layout = env_layout(arg, *body, param, env);
            lemma_captures_wf(param, env, layout);
            if let Ok(caps) = captures_spec(param, env, layout) {
                let id = lams.len() as int;
                let s = free_vars_spec(*body).remove(arg).filter(|n: Seq<char>| captured(param, env, n));
                lemma_free_vars_finite(*body);
                lemma_sorted_elements_exist_filtered(free_vars_spec(*body).remove(arg), param, env);
                assert(strictly_sorted(layout) && layout.to_set() == s);
                let placeholder = LamV { id, param: arg, env: layout, body: TermV::Num(0) };
                let lams1 = lams.push(placeholder);
                assert(envs_extend(lams, lams1));
                lemma_program_wf_push(lams, placeholder);
                lemma_conv_wf(lams1, *body, Some(arg), layout);
                let (lams2, rb) = conv(lams1, *body, Some(arg), layout);
                if let Ok(tb) = rb {
                    let new_lam = LamV { id, param: arg, env: layout, body: tb };
                    let lams3 = lams2.update(id, new_lam);
                    assert(envs_extend(lams2, lams3));
                    assert(program_wf(lams3)) by {
                        assert forall|i: int| 0 <= i < lams3.len() implies {
                            &&& (#[trigger] lams3[i]).id == i
                            &&& strictly_sorted(lams3[i].env)
                            &&& term_wf(lams3[i].body, true, lams3[i].env.len() as int, lams3, i + 1)
                        } by {
                            if i == id {
                                lemma_term_wf_mono(tb, true, layout.len() as int, lams2, lams3, lams1.len() as int, i + 1);
                            } else {
                                assert(lams3[i] == lams2[i]);
                                lemma_term_wf_mono(lams2[i].body, true, lams2[i].env.len() as int, lams2, lams3, i + 1, i + 1);
                            }
                        }
                    }
                    assert(envs_extend(lams, lams3));
                }
            }
        },
        _ => {},
    }
}

proof fn lemma_program_wf_push(lams: Seq<LamV>, l: LamV)
    requires
        program_wf(lams),
        l.id == lams.len(),
        strictly_sorted(l.env),
        l.body == TermV::Num(0),
    ensures
        program_wf(lams.push(l)),
        envs_extend(lams, lams.push(l)),
{
    let b = lams.push(l);
    assert(envs_extend(lams, b));
    assert forall|i: int| 0 <= i < b.len() implies term_wf(
        (#[trigger] b[i]).body,
        true,
        b[i].env.len() as int,
        b,
        i + 1,
    ) by {
        if i < lams.len() {
            lemma_term_wf_mono(lams[i].body, true, lams[i].env.len() as int, lams, b, i + 1, i + 1);
        }
    }
}

proof fn lemma_sorted_elements_exist_filtered(s: Set<Seq<char>>, param: Option<Seq<char>>, env: Seq<Seq<char>>)
    requires
        s.finite(),
    ensures
        strictly_sorted(sorted_elements(s.filter(|n: Seq<char>| captured(param, env, n)))),
        sorted_elements(s.filter(|n: Seq<char>| captured(param, env, n))).to_set() == s.filter(
            |n: Seq<char>| captured(param, env, n),
        ),
{
    let f = s.filter(|n: Seq<char>| captured(param, env, n));
    assert(f.subset_of(s));
    vstd::set_lib::lemma_set_subset_finite(s, f);
    crate::text::lemma_sorted_elements_exist(f);
}

/// Closure conversion leaves nothing for code generation to look up by name:
/// starting from well-formed lifted functions, converting a top-level
/// expression keeps every lifted function well formed (its id is its index,
/// its environment is sorted, its body reads only its
/// own parameter and environment slots and allocates only closures over later
/// functions, filling their whole environment), keeps the environments of the
/// functions already there, and yields a term that reads no parameter or
/// environment slot and allocates only closures over the functions it added.
pub proof fn lemma_conversion_well_formed(lams: Seq<LamV>, e: ExprV)
    requires
        program_wf(lams),
    ensures
        program_wf(conv(lams, e, None, Seq::empty()).0),
        envs_extend(lams, conv(lams, e, None, Seq::empty()).0),
        conv(lams, e, None, Seq::empty()).1 matches Ok(t) ==> term_wf(
            t,
            false,
            0,
            conv(lams, e, None, Seq::empty()).0,
            lams.len() as int,
        ),
{
    lemma_conv_wf(lams, e, None, Seq::empty());
}

/// Closure conversion of the top-level expressions `es`, one after another,
/// starting from the lifted functions `lams`: the lifted functions
/// afterwards, and the top-level terms or the first error.
pub open spec fn conv_tops(lams: Seq<LamV>, es: Seq<ExprV>) -> (Seq<LamV>, Result<Seq<TermV>, Seq<char>>)
    decreases es.len(),
{
    if es.len() == 0 {
        (lams, Ok(Seq::empty()))
    } else {
        let (before, r) = conv_tops(lams, es.drop_last());
        match r {
            Err(m) => (before, Err(m)),
            Ok(ts) => {
                let (after, t) = conv(before, es.last(), None, Seq::empty());
                match t {
                    Ok(t) => (after, Ok(ts.push(t))),
                    Err(m) => (after, Err(m)),
                }
            },
        }
    }
}

proof fn lemma_conv_tops_wf(lams: Seq<LamV>, es: Seq<ExprV>)
    requires
        program_wf(lams),
    ensures
        program_wf(conv_tops(lams, es).0),
        envs_extend(lams, conv_tops(lams, es).0),
        conv_tops(lams, es).1 matches Ok(ts) ==> forall|k: int|
            0 <= k < ts.len() ==> term_wf(#[trigger] ts[k], false, 0, conv_tops(lams, es).0, 0),
    decreases es.len(),
{
    if es.len() > 0 {
        lemma_conv_tops_wf(lams, es.drop_last());
        let (before, r) = conv_tops(lams, es.drop_last());
        if let Ok(ts) = r {
            lemma_conversion_well_formed(before, es.last());
            let (after, t) = conv(before, es.last(), None, Seq::empty());
            if let Ok(t) = t {
                let all = ts.push(t);
                assert forall|k: int| 0 <= k < all.len() implies term_wf(#[trigger] all[k], false, 0, after, 0) by {
                    if k < ts.len() {
                        lemma_term_wf_mono(ts[k], false, 0, before, after, 0, 0);
                    } else {
                        lemma_term_wf_mono(t, false, 0, after, after, before.len() as int, 0);
                    }
                }
            }
            assert forall|i: int| 0 <= i < lams.len() implies (#[trigger] after[i]).env == lams[i].env by {
                assert(before[i].env == lams[i].env);
            }
        }
    }
}

/// A program built by converting top-level expressions one after another
/// with a fresh `Converter` (`new`, then `convert_top` for each, then
/// `finish`) is well formed: every lifted function has its index as its id,
/// a sorted environment, and a body that reads only its own parameter and
/// environment slots and allocates only closures over later functions,
/// filling their whole environment; every top-level term reads no parameter
/// or environment slot, so the closures it allocates capture nothing.
pub proof fn lemma_program_well_formed(es: Seq<ExprV>)
    ensures
        program_wf(conv_tops(Seq::empty(), es).0),
        conv_tops(Seq::empty(), es).1 matches Ok(ts) ==> forall|k: int|
            0 <= k < ts.len() ==> term_wf(#[trigger] ts[k], false, 0, conv_tops(Seq::empty(), es).0, 0),
{
    lemma_conv_tops_wf(Seq::empty(), es);
}

proof fn lemma_first_index_found(s: Seq<Seq<char>>, x: Seq<char>)
    requires
        s.contains(x),
    ensures
        first_index(s, x) is Some,
    decreases s.len(),
{
    let k = choose|k: int| 0 <= k < s.len() && s[k] == x;
    if s.last() != x {
        assert(k < s.len() - 1);
        assert(s.drop_last()[k] == x);
        lemma_first_index_found(s.drop_last(), x);
    }
}

/// Whether the name `n` means something in the frame with parameter `param`
/// and environment `env`: the parameter, a slot, or a primitive.
pub open spec fn resolvable(param: Option<Seq<char>>, env: Seq<Seq<char>>, n: Seq<char>) -> bool {
    param == Some(n) || env.contains(n) || primitive_spec(n) is Some
}

proof fn lemma_lookup_found(param: Option<Seq<char>>, env: Seq<Seq<char>>, n: Seq<char>)
    ensures
        (lookup_spec(param, env, n) is Some) <==> (param == Some(n) || env.contains(n)),
{
    lemma_first_index_bound(env, n);
    if env.contains(n) {
        lemma_first_index_found(env, n);
    }
}

proof fn lemma_captures_ok(param: Option<Seq<char>>, env: Seq<Seq<char>>, names: Seq<Seq<char>>)
    ensures
        (captures_spec(param, env, names) is Ok) <==> (forall|k: int|
            0 <= k < names.len() ==> (lookup_spec(param, env, #[trigger] names[k]) is Some)),
        captures_spec(param, env, names) matches Err(n) ==> names.contains(n) && lookup_spec(param, env, n) is None,
    decreases names.len(),
{
    if names.len() > 0 {
        let init = names.drop_last();
        lemma_captures_ok(param, env, init);
        assert(names.last() == names[names.len() - 1]);
        assert forall|k: int| 0 <= k < init.len() implies init[k] == names[k] by {}
        if let Err(n) = captures_spec(param, env, init) {
            let k = choose|k: int| 0 <= k < init.len() && init[k] == n;
            assert(names[k] == n);
        }
    }
}

/// Closure conversion fails exactly on an unbound name: converting `e` in
/// the frame with parameter `param` and environment `env` succeeds if and
/// only if every free variable of `e` is the parameter, in the environment,
/// or a primitive; and its error names such a free variable that is none of
/// these.
pub proof fn lemma_conversion_fails_only_on_unbound(
    lams: Seq<LamV>,
    e: ExprV,
    param: Option<Seq<char>>,
    env: Seq<Seq<char>>,
)
    ensures
        (conv(lams, e, param, env).1 is Ok) <==> (forall|n: Seq<char>|
            #[trigger] free_vars_spec(e).contains(n) ==> resolvable(param, env, n)),
        conv(lams, e, param, env).1 matches Err(m) ==> exists|n: Seq<char>|
            #[trigger] free_vars_spec(e).contains(n) && !resolvable(param, env, n) && m == unbound_msg(n),
    decreases e,
{
    match e {
        ExprV::Var(name) => {
            lemma_lookup_found(param, env, name);
            assert(free_vars_spec(e).contains(name));
        },
        ExprV::Num(_) => {},
        ExprV::App(left, right) => {
            let (lams1, rl) = conv(lams, *left, param, env);
            lemma_conversion_fails_only_on_unbound(lams, *left, param, env);
            lemma_conversion_fails_only_on_unbound(lams1, *right, param, env);
            if let Err(m) = rl {
                let n = choose|n: Seq<char>|
                    #[trigger] free_vars_spec(*left).contains(n) && !resolvable(param, env, n) && m == unbound_msg(n);
                assert(free_vars_spec(e).contains(n));
            } else if let Err(m) = conv(lams1, *right, param, env).1 {
                let n = choose|n: Seq<char>|
                    #[trigger] free_vars_spec(*right).contains(n) && !resolvable(param, env, n) && m == unbound_msg(n);
                assert(free_vars_spec(e).contains(n));
            } else {
                assert forall|n: Seq<char>| #[trigger] free_vars_spec(e).contains(n) implies resolvable(param, env, n) by {
                    if free_vars_spec(*left).contains(n) {
                    } else {
                        assert(free_vars_spec(*right).contains(n));
                    }
                }
            }
        },
        ExprV::Fun(arg, body) => {
            let layout = env_layout(arg, *body, param, env);
            let s0 = free_vars_spec(*body).remove(arg);
            lemma_free_vars_finite(*body);
            lemma_sorted_elements_exist_filtered(s0, param, env);
            assert(layout.to_set() == s0.filter(|n: Seq<char>| captured(param, env, n)));
            lemma_captures_ok(param, env, layout);
            // Inside the lambda, a name is resolvable when it is outside.
            let inner_ok = forall|n: Seq<char>|
                #[trigger] free_vars_spec(*body).contains(n) ==> resolvable(Some(arg), layout, n);
            assert forall|n: Seq<char>| #[trigger] free_vars_spec(*body).contains(n) && n != arg
                implies (layout.contains(n) <==> captured(param, env, n)) by {
                assert(s0.contains(n));
                assert(layout.to_set().contains(n) == layout.contains(n));
            }
            match captures_spec(param, env, layout) {
                Err(name) => {
                    lemma_lookup_found(param, env, name);
                    assert(layout.to_set().contains(name));
                    assert(free_vars_spec(e).contains(name));
                },
                Ok(caps) => {
                    let id = lams.len() as int;
                    let placeholder = LamV { id, param: arg, env: layout, body: TermV::Num(0) };
                    let lams1 = lams.push(placeholder);
                    lemma_conversion_fails_only_on_unbound(lams1, *body, Some(arg), layout);
                    assert(inner_ok) by {
                        assert forall|n: Seq<char>| #[trigger] free_vars_spec(*body).contains(n)
                            implies resolvable(Some(arg), layout, n) by {
                            if n != arg && !layout.contains(n) {
                                assert(!captured(param, env, n));
                            }
                        }
                    }
                    assert forall|n: Seq<char>| #[trigger] free_vars_spec(e).contains(n) implies resolvable(
                        param,
                        env,
                        n,
                    ) by {
                        assert(free_vars_spec(*body).contains(n) && n != arg);
                        if layout.contains(n) {
                            let k = choose|k: int| 0 <= k < layout.len() && layout[k] == n;
                            assert(lookup_spec(param, env, layout[k]) is Some);
                            lemma_lookup_found(param, env, n);
                        }
                    }
                },
            }
        },
    }
}

/// The capture `c`, taken in the frame with parameter `param` and
/// environment `env`, fetches the value of the name `name`: the parameter
/// only where it is that name, a slot only where that slot holds that name.
pub open spec fn capture_reads(c: Capture, param: Option<Seq<char>>, env: Seq<Seq<char>>, name: Seq<char>) -> bool {
    match c {
        Capture::Param => param == Some(name),
        Capture::Env(i) => 0 <= i < env.len() && env[i as int] == name,
    }
}

/// `t` computes what `e` does, in the frame with parameter `param` and
/// environment `env`, with the lifted functions `lams`: each variable is read
/// from the parameter or the slot that holds its own name, or is the
/// primitive of that name; each lambda allocates a closure over a lifted
/// function (with an id from `lo` on) that takes the lambda's parameter,
/// whose every slot is filled with the value of the name it holds, and whose
/// body computes the lambda's body in the same sense.
pub open spec fn reads_as(
    e: ExprV,
    t: TermV,
    param: Option<Seq<char>>,
    env: Seq<Seq<char>>,
    lams: Seq<LamV>,
    lo: int,
) -> bool
    decreases e,
{
    match e {
        ExprV::Num(n) => t == TermV::Num(n),
        ExprV::Var(name) => match t {
            TermV::Param => param == Some(name),
            TermV::Env(i) => 0 <= i < env.len() && env[i] == name,
            TermV::Prim(s) => primitive_spec(name) == Some(s),
            _ => false,
        },
        ExprV::App(left, right) => match t {
            TermV::App(tl, tr) => reads_as(*left, *tl, param, env, lams, lo) && reads_as(
                *right,
                *tr,
                param,
                env,
                lams,
                lo,
            ),
            _ => false,
        },
        ExprV::Fun(arg, body) => match t {
            TermV::MakeClosure(id, caps) => {
                &&& lo <= id < lams.len()
                &&& lams[id].param == arg
                &&& caps.len() == lams[id].env.len()
                &&& forall|k: int| 0 <= k < caps.len() ==> capture_reads(#[trigger] caps[k], param, env, lams[id].env[k])
                &&& reads_as(*body, lams[id].body, Some(arg), lams[id].env, lams, id + 1)
            },
            _ => false,
        },
    }
}

proof fn lemma_reads_as_mono(
    e: ExprV,
    t: TermV,
    param: Option<Seq<char>>,
    env: Seq<Seq<char>>,
    a: Seq<LamV>,
    b: Seq<LamV>,
    lo: int,
    lo2: int,
)
    requires
        reads_as(e, t, param, env, a, lo),
        lo2 <= lo,
        a.len() <= b.len(),
        forall|i: int| lo <= i < a.len() ==> #[trigger] b[i] == a[i],
    ensures
        reads_as(e, t, param, env, b, lo2),
    decreases e,
{
    match e {
        ExprV::App(left, right) => {
            if let TermV::App(tl, tr) = t {
                lemma_reads_as_mono(*left, *tl, param, env, a, b, lo, lo2);
                lemma_reads_as_mono(*right, *tr, param, env, a, b, lo, lo2);
            }
        },
        ExprV::Fun(arg, body) => {
            if let TermV::MakeClosure(id, caps) = t {
                assert(b[id] == a[id]);
                lemma_reads_as_mono(*body, a[id].body, Some(arg), a[id].env, a, b, id + 1, id + 1);
            }
        },
        _ => {},
    }
}

/// Conversion keeps the lifted functions it starts with and only appends.
proof fn lemma_conv_keeps(lams: Seq<LamV>, e: ExprV, param: Option<Seq<char>>, env: Seq<Seq<char>>)
    ensures
        lams.len() <= conv(lams, e, param, env).0.len(),
        forall|i: int| 0 <= i < lams.len() ==> #[trigger] conv(lams, e, param, env).0[i] == lams[i],
        (e is Fun && conv(lams, e, param, env).1 is Ok) ==> lams.len() < conv(lams, e, param, env).0.len(),
    decreases e,
{
    match e {
        ExprV::App(left, right) => {
            lemma_conv_keeps(lams, *left, param, env);
            let lams1 = conv(lams, *left, param, env).0;
            lemma_conv_keeps(lams1, *right, param, env);
            let lams2 = conv(lams1, *right, param, env).0;
            assert forall|i: int| 0 <= i < lams.len() implies #[trigger] conv(lams, e, param, env).0[i] == lams[i] by {
                assert(lams1[i] == lams[i]);
                assert(lams2[i] == lams1[i]);
            }
        },
        ExprV::Fun(arg, body) => {
            let layout = env_layout(arg, *body, param, env);
            if let Ok(caps) = captures_spec(param, env, layout) {
                let id = lams.len() as int;
                let placeholder = LamV { id, param: arg, env: layout, body: TermV::Num(0) };
                let lams1 = lams.push(placeholder);
                lemma_conv_keeps(lams1, *body, Some(arg), layout);
                let lams2 = conv(lams1, *body, Some(arg), layout).0;
                assert forall|i: int| 0 <= i < lams.len() implies #[trigger] lams2[i] == lams[i] by {
                    assert(lams2[i] == lams1[i]);
                }
            }
        },
        _ => {},
    }
}

proof fn lemma_captures_read(param: Option<Seq<char>>, env: Seq<Seq<char>>, names: Seq<Seq<char>>)
    requires
        env.len() <= usize::MAX,
    ensures
        captures_spec(param, env, names) matches Ok(cs) ==> {
            &&& cs.len() == names.len()
            &&& forall|k: int| 0 <= k < cs.len() ==> capture_reads(#[trigger] cs[k], param, env, names[k])
        },
    decreases names.len(),
{
    if names.len() > 0 {
        lemma_captures_read(param, env, names.drop_last());
        lemma_first_index_bound(env, names.last());
        if let Ok(cs) = captures_spec(param, env, names) {
            let cs0 = captures_spec(param, env, names.drop_last())->Ok_0;
            assert forall|k: int| 0 <= k < cs.len() implies capture_reads(#[trigger] cs[k], param, env, names[k]) by {
                if k < cs0.len() {
                    assert(cs[k] == cs0[k]);
                    assert(names[k] == names.drop_last()[k]);
                }
            }
        }
    }
}

proof fn lemma_free_vars_len(e: ExprV)
    ensures
        free_vars_spec(e).finite(),
        free_vars_spec(e).len() <= term_size(e),
    decreases e,
{
    match e {
        ExprV::Var(name) => {
            assert(set![name].len() == 1);
        },
        ExprV::Num(_) => {},
        ExprV::Fun(arg, body) => {
            lemma_free_vars_len(*body);
        },
        ExprV::App(left, right) => {
            lemma_free_vars_len(*left);
            lemma_free_vars_len(*right);
            vstd::set_lib::lemma_len_union(free_vars_spec(*left), free_vars_spec(*right));
        },
    }
}

/// A lambda's environment has no more slots than its body has parts.
proof fn lemma_layout_len(arg: Seq<char>, body: ExprV, param: Option<Seq<char>>, env: Seq<Seq<char>>)
    ensures
        env_layout(arg, body, param, env).len() <= term_size(body),
{
    lemma_free_vars_len(body);
    let s0 = free_vars_spec(body).remove(arg);
    let s = s0.filter(|n: Seq<char>| captured(param, env, n));
    lemma_sorted_elements_exist_filtered(s0, param, env);
    let v = env_layout(arg, body, param, env);
    assert forall|i: int, j: int| 0 <= i < v.len() && 0 <= j < v.len() && i != j implies v[i] != v[j] by {
        lemma_seq_lt_irreflexive(v[i]);
        if i < j {
            assert(seq_lt(v[i], v[j]));
        } else {
            assert(seq_lt(v[j], v[i]));
        }
    }
    v.unique_seq_to_set();
    assert(s.subset_of(free_vars_spec(body)));
    vstd::set_lib::lemma_len_subset(s, free_vars_spec(body));
}

/// Closure conversion keeps the meaning of every name: wherever converting
/// `e` in the frame with parameter `param` and environment `env` succeeds,
/// the term reads each variable from the parameter only where the parameter
/// is that variable, and from slot `i` only where `env[i]` is that variable;
/// each closure it allocates fills every slot of the lifted function's
/// environment with the value of the name that slot holds, and the lifted
/// function's body reads its own parameter and slots in the same way. The
/// bounds are those of a frame and an expression held in memory.
pub proof fn lemma_conversion_reads_the_right_slots(lams: Seq<LamV>, e: ExprV, param: Option<Seq<char>>, env: Seq<Seq<char>>)
    requires
        env.len() <= usize::MAX,
        term_size(e) <= usize::MAX,
    ensures
        conv(lams, e, param, env).1 matches Ok(t) ==> reads_as(
            e,
            t,
            param,
            env,
            conv(lams, e, param, env).0,
            lams.len() as int,
        ),
    decreases e,
{
    match e {
        ExprV::Var(name) => {
            lemma_first_index_bound(env, name);
        },
        ExprV::App(left, right) => {
            lemma_conversion_reads_the_right_slots(lams, *left, param, env);
            let (lams1, rl) = conv(lams, *left, param, env);
            lemma_conv_keeps(lams, *left, param, env);
            lemma_conversion_reads_the_right_slots(lams1, *right, param, env);
            lemma_conv_keeps(lams1, *right, param, env);
            let (lams2, rr) = conv(lams1, *right, param, env);
            if let Ok(tl) = rl {
                if let Ok(tr) = rr {
                    lemma_reads_as_mono(*left, tl, param, env, lams1, lams2, lams.len() as int, lams.len() as int);
                    lemma_reads_as_mono(*right, tr, param, env, lams2, lams2, lams1.len() as int, lams.len() as int);
                }
            }
        },
        ExprV::Fun(arg, body) => {
            let layout = env_layout(arg, *body, param, env);
            lemma_captures_read(param, env, layout);
            lemma_layout_len(arg, *body, param, env);
            if let Ok(caps) = captures_spec(param, env, layout) {
                let id = lams.len() as int;
                let placeholder = LamV { id, param: arg, env: layout, body: TermV::Num(0) };
                let lams1 = lams.push(placeholder);
                lemma_conversion_reads_the_right_slots(lams1, *body, Some(arg), layout);
                lemma_conv_keeps(lams1, *body, Some(arg), layout);
                let (lams2, rb) = conv(lams1, *body, Some(arg), layout);
                if let Ok(tb) = rb {
                    let new_lam = LamV { id, param: arg, env: layout, body: tb };
                    let lams3 = lams2.update(id, new_lam);
                    lemma_reads_as_mono(*body, tb, Some(arg), layout, lams2, lams3, id + 1, id + 1);
                    assert(lams3[id] == new_lam);
                }
            }
        },
        _ => {},
    }
}

} // verus!
