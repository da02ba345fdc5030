//! The interpreter's sessions: the text shown for an evaluated expression, and
//! the commands of the interactive loop.
use vstd::prelude::*;

use crate::interp::lexer::{debug_string, debug_text, parse_spec, try_parse_expr};
use crate::interp::preprocessor::Preprocessor;
use crate::interp::term::{run_spec, show_spec, step_spec, Expr, ExprV, Step, StepV};
use crate::text::{
    append_str, append_string, chars_of, nat_text, push_char, push_nat_text, string_of, text_is,
};

verus! {

/// `s` as the pretty `Debug` formatter writes a nested value: every line
/// indented by four spaces.
pub open spec fn indent(s: Seq<char>) -> Seq<char>
    decreases s.len(),
{
    if s.len() == 0 {
        Seq::empty()
    } else {
        let init = s.drop_last();
        let lead = if init.len() == 0 || init.last() == '\n' {
            "    "@
        } else {
            Seq::empty()
        };
        indent(init) + lead + seq![s.last()]
    }
}

/// `Debug` text of a `bool`.
pub open spec fn bool_text(b: bool) -> Seq<char> {
    if b {
        "true"@
    } else {
        "false"@
    }
}

/// One field of a pretty-printed struct or tuple: `text,` on its own
/// indented lines.
pub open spec fn field_text(text: Seq<char>) -> Seq<char> {
    indent(text + ",\n"@)
}

/// Text of `e` as `format!("{:#?}", e)` writes it.
pub open spec fn debug_pretty(e: ExprV) -> Seq<char>
    decreases e,
{
    match e {
        ExprV::Var(name) => "Var(\n"@ + field_text(debug_text(name)) + ")"@,
        ExprV::Fun(arg, body) => "Fun {\n"@ + field_text("arg: "@ + debug_text(arg)) + field_text(
            "body: "@ + debug_pretty(*body),
        ) + "}"@,
        ExprV::App(left, right, right_first) => "App {\n"@ + field_text(
            "left: "@ + debug_pretty(*left),
        ) + field_text("right: "@ + debug_pretty(*right)) + field_text(
            "right_first: "@ + bool_text(right_first),
        ) + "}"@,
    }
}

/// Appends `s` to `out`, each line indented by four spaces.
fn push_indented(out: &mut String, s: &String)
    ensures
        final(out)@ == old(out)@ + indent(s@),
{
    let cs = chars_of(s.as_str());
    let mut i: usize = 0;
    assert(cs@.take(0) =~= Seq::<char>::empty());
    assert(out@ =~= old(out)@ + indent(cs@.take(0)));
    while i < cs.len()
        invariant
            i <= cs@.len(),
            out@ == old(out)@ + indent(cs@.take(i as int)),
        decreases cs.len() - i,
    {
        let ghost before = out@;
        let ghost init = cs@.take(i as int);
        assert(cs@.take(i + 1).drop_last() =~= init);
        assert(cs@.take(i + 1).last() == cs@[i as int]);
        let starts_line = i == 0 || cs[i - 1] == '\n';
        if i > 0 {
            assert(init.last() == cs@[i - 1]);
        }
        if starts_line {
            append_str(out, "    ");
            push_char(out, cs[i]);
            assert(out@ =~= before + "    "@ + seq![cs@[i as int]]);
        } else {
            push_char(out, cs[i]);
            assert(out@ =~= before + Seq::<char>::empty() + seq![cs@[i as int]]);
        }
        assert(out@ =~= old(out)@ + indent(cs@.take(i + 1)));
        i = i + 1;
    }
    assert(cs@.take(cs@.len() as int) =~= cs@);
}

/// Appends the field `text,` to `out`.
fn push_field(out: &mut String, text: String)
    ensures
        final(out)@ == old(out)@ + field_text(text@),
{
    let mut t = text;
    append_str(&mut t, ",\n");
    push_indented(out, &t);
}

/// Appends the pretty `Debug` text of `e` to `out`.
pub fn push_debug_pretty(out: &mut String, e: &Expr)
    ensures
        final(out)@ == old(out)@ + debug_pretty(e@),
    decreases e,
{
    match e {
        Expr::Var(name) => {
            append_str(out, "Var(\n");
            push_field(out, debug_string(name));
            append_str(out, ")");
            assert(out@ =~= old(out)@ + debug_pretty(e@));
        },
        Expr::Fun { arg, body } => {
            append_str(out, "Fun {\n");
            let mut a = string_of("arg: ");
            let d = debug_string(arg);
            append_string(&mut a, &d);
            push_field(out, a);
            let mut b = string_of("body: ");
            push_debug_pretty(&mut b, body);
            push_field(out, b);
            append_str(out, "}");
            assert(out@ =~= old(out)@ + debug_pretty(e@));
        },
        Expr::App { left, right, right_first } => {
            append_str(out, "App {\n");
            let mut l = string_of("left: ");
            push_debug_pretty(&mut l, left);
            push_field(out, l);
            let mut r = string_of("right: ");
            push_debug_pretty(&mut r, right);
            push_field(out, r);
            let mut f = string_of("right_first: ");
            if *right_first {
                append_str(&mut f, "true");
            } else {
                append_str(&mut f, "false");
            }
            push_field(out, f);
            append_str(out, "}");
            assert(out@ =~= old(out)@ + debug_pretty(e@));
        },
    }
}


/// The number of a reduction step; `padded` right-aligns it in two columns.
pub open spec fn step_label(n: nat, padded: bool) -> Seq<char> {
    if padded && n < 10 {
        " "@ + nat_text(n)
    } else {
        nat_text(n)
    }
}

/// The reduction steps from `e`, numbered from `step`, at most `fuel` of them:
/// one line `  Step n: term` per step, until a normal form.
pub open spec fn trace_spec(
    e: ExprV,
    macros: Map<Seq<char>, Seq<char>>,
    step: nat,
    padded: bool,
    fuel: nat,
) -> Seq<char>
    decreases fuel,
{
    if fuel == 0 {
        Seq::empty()
    } else {
        match step_spec(e, macros) {
            StepV::Next(next) => "  Step "@ + step_label(step, padded) + ": "@ + show_spec(next, false) + "\n"@
                + trace_spec(next, macros, step + 1, padded, (fuel - 1) as nat),
            _ => Seq::empty(),
        }
    }
}

/// The reduction steps of `e` to its normal form.
pub open spec fn full_trace(e: ExprV, macros: Map<Seq<char>, Seq<char>>, padded: bool) -> Seq<char> {
    trace_spec(e, macros, 1, padded, u64::MAX as nat)
}

/// The normal form of `e` (the term itself where reduction gets stuck).
pub open spec fn normal_form(e: ExprV, macros: Map<Seq<char>, Seq<char>>) -> ExprV {
    match run_spec(e, macros, u64::MAX as nat) {
        Ok(v) => v,
        Err(_) => e,
    }
}

/// Whether reducing `e` reaches a macro whose body ends right after a `\`.
pub open spec fn gets_stuck(e: ExprV, macros: Map<Seq<char>, Seq<char>>) -> bool {
    run_spec(e, macros, u64::MAX as nat) is Err
}

/// Appends the reduction steps of `expr` to `out`; `true` where reduction
/// gets stuck on a macro, and `out` is then of no use.
fn push_trace(out: &mut String, expr: &Expr, preprocessor: &Preprocessor, padded: bool) -> (stuck: bool)
    ensures
        stuck == gets_stuck(expr@, preprocessor.macros_spec()),
        !stuck ==> final(out)@ == old(out)@ + full_trace(expr@, preprocessor.macros_spec(), padded),
{
    let ghost macros = preprocessor.macros_spec();
    let mut current = expr.duplicate();
    let mut step: u128 = 1;
    let mut remaining: u64 = u64::MAX;
    while remaining > 0
        invariant
            macros == preprocessor.macros_spec(),
            step + remaining == u64::MAX + 1,
            run_spec(expr@, macros, u64::MAX as nat) == run_spec(current@, macros, remaining as nat),
            old(out)@ + full_trace(expr@, macros, padded) == out@ + trace_spec(
                current@,
                macros,
                step as nat,
                padded,
                remaining as nat,
            ),
        decreases remaining,
    {
        match current.beta_reduce_with_macros(preprocessor) {
            Step::Next(next) => {
                let ghost before = out@;
                append_str(out, "  Step ");
                if padded && step < 10 {
                    append_str(out, " ");
                }
                push_nat_text(out, step);
                append_str(out, ": ");
                next.show(out, false);
                append_str(out, "\n");
                let ghost line = "  Step "@ + step_label(step as nat, padded) + ": "@ + show_spec(next@, false)
                    + "\n"@;
                assert(out@ =~= before + line);
                assert(trace_spec(current@, macros, step as nat, padded, remaining as nat) == line
                    + trace_spec(next@, macros, (step + 1) as nat, padded, (remaining - 1) as nat));
                current = next;
                step = step + 1;
                remaining = remaining - 1;
            },
            Step::Normal => {
                assert(out@ =~= out@ + trace_spec(current@, macros, step as nat, padded, remaining as nat));
                return false;
            },
            Step::Stuck(_) => {
                return true;
            },
        }
    }
    assert(out@ =~= out@ + trace_spec(current@, macros, step as nat, padded, remaining as nat));
    false
}

/// What the interpreter prints for the expression `original`, parsed as `e`:
/// the expression, its reduction steps when `print_normalization` is set, and
/// its normal form.
pub open spec fn process_text(
    original: Seq<char>,
    e: ExprV,
    macros: Map<Seq<char>, Seq<char>>,
    print_normalization: bool,
) -> Seq<char> {
    "Expr: "@ + original + "\n"@ + (if print_normalization {
        "Reduction:\n"@ + full_trace(e, macros, false)
    } else {
        Seq::empty()
    }) + "Result: "@ + show_spec(normal_form(e, macros), false) + "\n\n"@
}

/// The text printed for the expression `original`, parsed as `expr`; `None`
/// where reduction gets stuck on a macro whose body ends right after a `\`.
pub fn process_expression(
    original: &String,
    expr: &Expr,
    preprocessor: &Preprocessor,
    print_normalization: bool,
) -> (r: Option<String>)
    ensures
        match r {
            Some(t) => !gets_stuck(expr@, preprocessor.macros_spec()) && t@ == process_text(
                original@,
                expr@,
                preprocessor.macros_spec(),
                print_normalization,
            ),
            None => gets_stuck(expr@, preprocessor.macros_spec()),
        },
{
    let mut sv = string_of("Expr: ");
    append_string(&mut sv, original);
    append_str(&mut sv, "\n");
    let ghost head = sv@;
    if print_normalization {
        append_str(&mut sv, "Reduction:\n");
        if push_trace(&mut sv, expr, preprocessor, false) {
            return None;
        }
    }
    let ghost middle = sv@;
    let normalized = match expr.normalize_with_macros(preprocessor) {
        Ok(n) => n,
        Err(_) => {
            return None;
        },
    };
    append_str(&mut sv, "Result: ");
    normalized.show(&mut sv, false);
    append_str(&mut sv, "\n\n");
    assert(sv@ =~= process_text(original@, expr@, preprocessor.macros_spec(), print_normalization));
    Some(sv)
}

/// The help text of the interactive loop.
pub open spec fn help_text() -> Seq<char> {
    "Commands:\n"@ + "  help        - Show this help message\n"@ + "  exit/quit   - Exit the REPL\n"@
        + "  debug       - Toggle debug mode (shows AST)\n"@
        + "  steps       - Toggle step-by-step reduction display\n"@
        + "  history     - Show expression history\n"@ + "  clear       - Clear history\n"@ + "\n"@
        + "Examples:\n"@ + "  \\x.x           - Identity function\n"@
        + "  (\\x.x) (\\y.y) - Identity applied to identity\n"@
        + "  \\x.\\y.x        - Constant function\n"@
}

/// `ON` or `OFF`.
pub open spec fn on_off(b: bool) -> Seq<char> {
    if b {
        "ON"@
    } else {
        "OFF"@
    }
}

/// The history listing: one line `n: expression` per entry, from 1.
pub open spec fn history_text(h: Seq<Seq<char>>) -> Seq<char>
    decreases h.len(),
{
    if h.len() == 0 {
        Seq::empty()
    } else {
        history_text(h.drop_last()) + nat_text(h.len()) + ": "@ + h.last() + "\n"@
    }
}

/// What the interactive loop prints for the expression `e`: the expression,
/// its reduction steps when `steps` is set, its normal form, and its syntax
/// tree when `debug` is set.
pub open spec fn evaluation_text(e: ExprV, macros: Map<Seq<char>, Seq<char>>, steps: bool, debug: bool) -> Seq<
    char,
> {
    "Input:      "@ + show_spec(e, false) + "\n"@ + (if steps {
        "Reduction:\n"@ + full_trace(e, macros, true)
    } else {
        Seq::empty()
    }) + "Result:     "@ + show_spec(normal_form(e, macros), false) + "\n"@ + (if debug {
        "AST:        "@ + debug_pretty(e) + "\n"@
    } else {
        Seq::empty()
    })
}

/// The state of the interactive loop.
pub struct ReplV {
    pub show_debug: bool,
    pub show_steps: bool,
    pub history: Seq<Seq<char>>,
    pub macros: Map<Seq<char>, Seq<char>>,
}

/// The answer to one input line: whether to go on reading, and the text for
/// standard output and for standard error.
#[derive(Debug)]
pub struct Reply {
    pub keep_going: bool,
    pub out: String,
    pub err: String,
}

pub struct ReplyV {
    pub keep_going: bool,
    pub out: Seq<char>,
    pub err: Seq<char>,
}

impl View for Reply {
    type V = ReplyV;

    open spec fn view(&self) -> ReplyV {
        ReplyV { keep_going: self.keep_going, out: self.out@, err: self.err@ }
    }
}

/// A reply that goes on, printing `out`.
pub open spec fn printed(out: Seq<char>) -> ReplyV {
    ReplyV { keep_going: true, out, err: Seq::empty() }
}

/// The next state and the reply for the input line `input` in state `st`;
/// `None` where parsing the line runs into a lambda cut off after its `\`,
/// or reducing it reaches a macro whose body does.
pub open spec fn command_spec(st: ReplV, input: Seq<char>) -> Option<(ReplV, ReplyV)> {
    if input == "exit"@ || input == "quit"@ {
        Some((st, ReplyV { keep_going: false, out: Seq::empty(), err: Seq::empty() }))
    } else if input == "help"@ {
        Some((st, printed(help_text())))
    } else if input == "debug"@ {
        Some(
            (
                ReplV { show_debug: !st.show_debug, ..st },
                printed("Debug mode: "@ + on_off(!st.show_debug) + "\n"@),
            ),
        )
    } else if input == "steps"@ {
        Some(
            (
                ReplV { show_steps: !st.show_steps, ..st },
                printed("Step-by-step reduction: "@ + on_off(!st.show_steps) + "\n"@),
            ),
        )
    } else if input == "history"@ {
        Some((st, printed(history_text(st.history))))
    } else if input == "clear"@ {
        Some((ReplV { history: Seq::empty(), ..st }, printed("History cleared\n"@)))
    } else {
        let next = ReplV { history: st.history.push(input), ..st };
        match parse_spec(input) {
            Ok(e) => if gets_stuck(e, st.macros) {
                None
            } else {
                Some((next, printed(evaluation_text(e, st.macros, st.show_steps, st.show_debug))))
            },
            Err(Some(m)) => Some(
                (next, ReplyV { keep_going: true, out: Seq::empty(), err: "Error: "@ + m + "\n"@ }),
            ),
            Err(None) => None,
        }
    }
}

/// Interactive REPL for the lambda calculus interpreter
pub struct Repl {
    show_debug: bool,
    show_steps: bool,
    history: Vec<String>,
    preprocessor: Preprocessor,
}

impl View for Repl {
    type V = ReplV;

    closed spec fn view(&self) -> ReplV {
        ReplV {
            show_debug: self.show_debug,
            show_steps: self.show_steps,
            history: crate::text::texts(self.history@),
            macros: self.preprocessor.macros_spec(),
        }
    }
}

impl Repl {
    /// A REPL with the macros of `preprocessor`, debug and step display off
    /// and an empty history.
    pub fn new(preprocessor: Preprocessor) -> (r: Repl)
        ensures
            r@ == (ReplV {
                show_debug: false,
                show_steps: false,
                history: Seq::empty(),
                macros: preprocessor.macros_spec(),
            }),
    {
        let r = Repl { show_debug: false, show_steps: false, history: Vec::new(), preprocessor };
        assert(r@.history =~= Seq::<Seq<char>>::empty());
        r
    }

    /// Process a REPL command; `None` where parsing the line runs into a lambda
    /// cut off after its `\`, or reducing it reaches a macro whose body does.
    pub fn process_command(&mut self, input: &String) -> (r: Option<Reply>)
        ensures
            match command_spec(old(self)@, input@) {
                Some((st, reply)) => r matches Some(x) && x@ == reply && final(self)@ == st,
                None => r is None && final(self)@ == old(self)@,
            },
    {
        if text_is(input, "exit") || text_is(input, "quit") {
            return Some(Reply { keep_going: false, out: String::new(), err: String::new() });
        }
        if text_is(input, "help") {
            return Some(Reply { keep_going: true, out: Self::help(), err: String::new() });
        }
        if text_is(input, "debug") {
            self.show_debug = !self.show_debug;
            let mut out = string_of("Debug mode: ");
            append_str(&mut out, if self.show_debug { "ON" } else { "OFF" });
            append_str(&mut out, "\n");
            return Some(Reply { keep_going: true, out, err: String::new() });
        }
        if text_is(input, "steps") {
            self.show_steps = !self.show_steps;
            let mut out = string_of("Step-by-step reduction: ");
            append_str(&mut out, if self.show_steps { "ON" } else { "OFF" });
            append_str(&mut out, "\n");
            return Some(Reply { keep_going: true, out, err: String::new() });
        }
        if text_is(input, "history") {
            return Some(Reply { keep_going: true, out: self.history_listing(), err: String::new() });
        }
        if text_is(input, "clear") {
            self.history = Vec::new();
            assert(self@.history =~= Seq::<Seq<char>>::empty());
            return Some(Reply { keep_going: true, out: string_of("History cleared\n"), err: String::new() });
        }
        let reply = match self.evaluate_expression(input) {
            Some(reply) => reply,
            None => {
                return None;
            },
        };
        let ghost h0 = self@.history;
        self.history.push(input.clone());
        assert(self@.history =~= h0.push(input@));
        Some(reply)
    }

    /// Evaluate a lambda calculus expression
    fn evaluate_expression(&self, expr_string: &String) -> (r: Option<Reply>)
        ensures
            match parse_spec(expr_string@) {
                Ok(e) => if gets_stuck(e, self@.macros) {
                    r is None
                } else {
                    r matches Some(x) && x@ == printed(
                        evaluation_text(e, self@.macros, self@.show_steps, self@.show_debug),
                    )
                },
                Err(Some(m)) => r matches Some(x) && x@ == (ReplyV {
                    keep_going: true,
                    out: Seq::empty(),
                    err: "Error: "@ + m + "\n"@,
                }),
                Err(None) => r is None,
            },
    {
        // Parse without expanding macros; macros are expanded lazily during reduction
        let expr = match try_parse_expr(expr_string.clone()) {
            None => {
                return None;
            },
            Some(Err(e)) => {
                let mut err = string_of("Error: ");
                append_string(&mut err, &e);
                append_str(&mut err, "\n");
                return Some(Reply { keep_going: true, out: String::new(), err });
            },
            Some(Ok(expr)) => expr,
        };
        let ghost macros = self.preprocessor.macros_spec();
        let mut output = string_of("Input:      ");
        expr.show(&mut output, false);
        append_str(&mut output, "\n");
        if self.show_steps {
            append_str(&mut output, "Reduction:\n");
            if push_trace(&mut output, &expr, &self.preprocessor, true) {
                return None;
            }
        }
        let normalized = match expr.normalize_with_macros(&self.preprocessor) {
            Ok(n) => n,
            Err(_) => {
                return None;
            },
        };
        append_str(&mut output, "Result:     ");
        normalized.show(&mut output, false);
        append_str(&mut output, "\n");
        if self.show_debug {
            append_str(&mut output, "AST:        ");
            push_debug_pretty(&mut output, &expr);
            append_str(&mut output, "\n");
        }
        assert(output@ =~= evaluation_text(expr@, macros, self.show_steps, self.show_debug));
        Some(Reply { keep_going: true, out: output, err: String::new() })
    }

    /// The help text.
    fn help() -> (r: String)
        ensures
            r@ == help_text(),
    {
        let mut s = string_of("Commands:\n");
        append_str(&mut s, "  help        - Show this help message\n");
        append_str(&mut s, "  exit/quit   - Exit the REPL\n");
        append_str(&mut s, "  debug       - Toggle debug mode (shows AST)\n");
        append_str(&mut s, "  steps       - Toggle step-by-step reduction display\n");
        append_str(&mut s, "  history     - Show expression history\n");
        append_str(&mut s, "  clear       - Clear history\n");
        append_str(&mut s, "\n");
        append_str(&mut s, "Examples:\n");
        append_str(&mut s, "  \\x.x           - Identity function\n");
        append_str(&mut s, "  (\\x.x) (\\y.y) - Identity applied to identity\n");
        append_str(&mut s, "  \\x.\\y.x        - Constant function\n");
        s
    }

    /// The history listing.
    fn history_listing(&self) -> (r: String)
        ensures
            r@ == history_text(self@.history),
    {
        let ghost h = self@.history;
        let mut s = String::new();
        let mut i: usize = 0;
        while i < self.history.len()
            invariant
                h == crate::text::texts(self.history@),
                i <= h.len(),
                s@ == history_text(h.take(i as int)),
            decreases self.history.len() - i,
        {
            let ghost s0 = s@;
            push_nat_text(&mut s, (i + 1) as u128);
            append_str(&mut s, ": ");
            append_string(&mut s, &self.history[i]);
            append_str(&mut s, "\n");
            assert(h.take(i + 1).drop_last() =~= h.take(i as int));
            assert(h.take(i + 1).last() == self.history@[i as int]@);
            assert(s@ =~= history_text(h.take(i + 1)));
            i = i + 1;
        }
        assert(h.take(h.len() as int) =~= h);
        s
    }
}

} // verus!
