use purell::interp::lexer::{parse_expr, try_parse_expr};
use purell::interp::preprocessor::{Preprocessor, SplitStep};
use purell::interp::repl::{process_expression, push_debug_pretty, Repl};
use purell::interp::term::{Expr, Step};

fn parse(s: &str) -> Expr {
    parse_expr(s.to_string()).expect("should parse")
}

fn show(e: &Expr) -> String {
    let mut s = String::new();
    e.show(&mut s, false);
    s
}

fn with_macros(defs: &[&str]) -> Preprocessor {
    let mut p = Preprocessor::new();
    for d in defs {
        p.parse_macro(d).unwrap();
    }
    p
}

fn lines(text: &str) -> Vec<String> {
    text.lines().map(|l| l.to_string()).collect()
}

fn next_term(s: Step) -> Expr {
    match s {
        Step::Next(e) => e,
        Step::Normal => panic!("expected a step, got a normal form"),
        Step::Stuck(m) => panic!("expected a step, got stuck on {m}"),
    }
}

fn normal(src: &str, p: &Preprocessor) -> String {
    show(&parse(src).normalize_with_macros(p).unwrap())
}

#[test]
fn parses_and_shows_terms() {
    assert_eq!(show(&parse("\\x.x")), "\\x.x");
    assert_eq!(show(&parse("(\\x.x) y")), "(\\x.x) y");
    assert_eq!(show(&parse("f x y")), "f x y");
    assert_eq!(show(&parse("f (g x)")), "f (g x)");
    assert_eq!(show(&parse("\\x.\\y.x y")), "\\x.\\y.x y");
}

#[test]
fn parse_errors_use_debug_text() {
    assert_eq!(parse_expr(")".to_string()).err().unwrap(), "Unexpected token CloseParen");
    assert_eq!(
        parse_expr("\\x x".to_string()).err().unwrap(),
        "Expected Dot, got Ident(\"x\")"
    );
    assert_eq!(parse_expr("\\.x".to_string()).err().unwrap(), "Expected Identifier got Dot");
    assert_eq!(
        parse_expr("x)y".to_string()).err().unwrap(),
        "Unexpected token(s) [CloseParen, Ident(\"y\")]"
    );
    assert_eq!(parse_expr("".to_string()).err().unwrap(), "Unexpected end of input");
    assert_eq!(parse_expr("x ; y".to_string()).err().unwrap(), "Unexpected character ;");
    assert_eq!(parse_expr("(x".to_string()).err().unwrap(), "Expected CloseParen, got EOF");
}

#[test]
fn names_continue_with_unicode_letters_and_numbers() {
    assert_eq!(show(&parse("\\xé.xé")), "\\xé.xé");
    assert_eq!(show(&parse("x²")), "x²");
    assert!(parse_expr("é".to_string()).is_err());
}

#[test]
fn lambda_cut_off_after_backslash_is_stuck() {
    assert!(try_parse_expr("\\".to_string()).is_none());
    assert!(try_parse_expr("f \\".to_string()).is_none());
    assert!(try_parse_expr("\\x".to_string()).is_some());
}

#[test]
fn substitution_avoids_capture() {
    let e = parse("\\y.x y");
    let r = e.substitute(&"x".to_string(), &parse("y"));
    assert_eq!(show(&r), "\\y'.y y'");
    let e = parse("\\x.x");
    let r = e.substitute(&"x".to_string(), &parse("z"));
    assert_eq!(show(&r), "\\x.x");
}

#[test]
fn free_variables() {
    let e = parse("\\x.b x a b");
    assert_eq!(e.free_vars(), vec!["a".to_string(), "b".to_string()]);
    assert!(e.is_free(&"a".to_string()));
    assert!(!e.is_free(&"x".to_string()));
}

#[test]
fn normal_order_reduction() {
    let p = Preprocessor::new();
    assert_eq!(normal("(\\x.\\y.x) a b", &p), "a");
    // The argument that diverges is never evaluated.
    assert_eq!(normal("(\\x.z) ((\\x.x x) (\\x.x x))", &p), "z");
    let e = parse("(\\x.x) y");
    assert_eq!(show(&next_term(e.beta_reduce_with_macros(&p))), "y");
    assert!(matches!(parse("x y").beta_reduce_with_macros(&p), Step::Normal));
}

#[test]
fn macros_expand_lazily() {
    let p = with_macros(&[":id \\x.x", ":k \\x.\\y.x"]);
    assert_eq!(normal("k id z", &p), "\\x.x");
    let e = parse("id");
    assert_eq!(show(&next_term(e.beta_reduce_with_macros(&p))), "\\x.x");
    // Open terms reduce: unknown names stay free.
    assert_eq!(normal("(\\f.f one) id", &p), "one");
}

#[test]
fn applications_in_argument_position_are_bracketed() {
    let p = with_macros(&[":succ \\n.\\f.\\x.f (n f x)", ":one \\f.\\x.f x"]);
    assert_eq!(normal("succ one", &p), "\\f.\\x.f (f x)");
    let e = Expr::App {
        left: Box::new(Expr::Var("f".to_string())),
        right: Box::new(Expr::App {
            left: Box::new(Expr::Var("g".to_string())),
            right: Box::new(Expr::Var("x".to_string())),
            right_first: false,
        }),
        right_first: false,
    };
    assert_eq!(show(&e), "f (g x)");
    assert_eq!(show(&parse("(\\x.x) (y z)")), "(\\x.x) (y z)");
}

#[test]
fn reduction_is_leftmost_outermost() {
    let p = Preprocessor::new();
    let e = parse("(\\x.x) a ((\\y.y) b)");
    assert_eq!(show(&next_term(e.beta_reduce_with_macros(&p))), "a ((\\y.y) b)");
    // The discarded argument never runs.
    assert_eq!(normal("(\\a.\\b.c) i ((\\x.x x) (\\x.x x))", &p), "c");
}

#[test]
fn substituting_a_variable_that_is_not_free_changes_nothing() {
    let e = parse("\\y.y");
    let r = e.substitute(&"y'".to_string(), &parse("y"));
    assert_eq!(show(&r), "\\y''.y''");
}

#[test]
fn comments_run_to_the_end_of_the_line() {
    let mut p = Preprocessor::new();
    let text = "\\x.x # identity\n:k \\x.\\y.x # constant\n@ lib.pl # library\n";
    let (exprs, step) = p.split_lines(&lines(text), 0).unwrap();
    assert_eq!(exprs.len(), 1);
    assert_eq!(exprs[0].original, "\\x.x");
    assert_eq!(p.get_macro_expansion(&"k".to_string()), Some("\\x.\\y.x".to_string()));
    match step {
        SplitStep::Include { name, .. } => assert_eq!(name, "lib.pl"),
        SplitStep::Done => panic!("expected an include"),
    }
}

#[test]
fn macro_definitions() {
    let mut p = Preprocessor::new();
    assert_eq!(p.parse_macro("  :name  body text ").unwrap(), ());
    assert_eq!(p.get_macro_expansion(&"name".to_string()), Some("body text".to_string()));
    assert_eq!(p.get_macro_expansion(&"other".to_string()), None);
    assert_eq!(p.parse_macro("name body").err().unwrap(), "Macro definition must start with ':'");
    assert_eq!(
        p.parse_macro(":name").err().unwrap(),
        "Macro definition must have format: :name body"
    );
    assert_eq!(p.parse_macro(":name   ").err().unwrap(), "Macro definition must have format: :name body");
    p.parse_macro(":name other").unwrap();
    assert_eq!(p.get_macro_expansion(&"name".to_string()), Some("other".to_string()));
}

#[test]
fn split_lines_groups_expressions() {
    let mut p = Preprocessor::new();
    let text = "# comment\n:id \\x.x\nid\n  a\n\n\nb\n";
    let (exprs, step) = p.split_lines(&lines(text), 0).unwrap();
    assert!(matches!(step, SplitStep::Done));
    let originals: Vec<String> = exprs.iter().map(|e| e.original.clone()).collect();
    assert_eq!(originals, vec!["id a".to_string(), "b".to_string()]);
    assert_eq!(p.get_macro_expansion(&"id".to_string()), Some("\\x.x".to_string()));
}

#[test]
fn split_lines_stops_at_includes() {
    let mut p = Preprocessor::new();
    let text = "a\n@ lib.pl\nb\n";
    let (exprs, step) = p.split_lines(&lines(text), 0).unwrap();
    assert_eq!(exprs.len(), 1);
    assert_eq!(exprs[0].original, "a");
    match step {
        SplitStep::Include { name, next } => {
            assert_eq!(name, "lib.pl");
            assert_eq!(next, 2);
        }
        SplitStep::Done => panic!("expected an include"),
    }
    let (rest, step) = p.split_lines(&lines(text), 2).unwrap();
    assert_eq!(rest[0].original, "b");
    assert!(matches!(step, SplitStep::Done));
    let err = p.split_lines(&lines("@lib.txt"), 0).err().unwrap();
    assert_eq!(err, "Include file must have .pl extension: lib.txt");
    let err = p.split_lines(&lines(":x"), 0).err().unwrap();
    assert_eq!(err, "Macro definition must have format: :name body");
}

#[test]
fn debug_text_matches_derived_debug() {
    for src in ["x", "\\x.x", "(\\x.x) (\\y.y y)", "xé (g q)", "a (b c)"] {
        let e = match parse_expr(src.to_string()) {
            Ok(e) => e,
            Err(_) => parse("f g"),
        };
        let mut s = String::new();
        push_debug_pretty(&mut s, &e);
        assert_eq!(s, format!("{:#?}", e));
    }
}

#[test]
fn process_expression_prints_steps_and_result() {
    let p = with_macros(&[":id \\x.x"]);
    let e = parse("id y");
    let text = process_expression(&"id y".to_string(), &e, &p, true).unwrap();
    assert_eq!(
        text,
        "Expr: id y\nReduction:\n  Step 1: (\\x.x) y\n  Step 2: y\nResult: y\n\n"
    );
    let text = process_expression(&"id y".to_string(), &e, &p, false).unwrap();
    assert_eq!(text, "Expr: id y\nResult: y\n\n");
}

#[test]
fn repl_commands() {
    let mut repl = Repl::new(with_macros(&[":id \\x.x"]));
    let r = repl.process_command(&"debug".to_string()).unwrap();
    assert_eq!(r.out, "Debug mode: ON\n");
    assert!(r.keep_going);
    let r = repl.process_command(&"debug".to_string()).unwrap();
    assert_eq!(r.out, "Debug mode: OFF\n");
    let r = repl.process_command(&"steps".to_string()).unwrap();
    assert_eq!(r.out, "Step-by-step reduction: ON\n");
    let r = repl.process_command(&"id z".to_string()).unwrap();
    assert_eq!(
        r.out,
        "Input:      id z\nReduction:\n  Step  1: (\\x.x) z\n  Step  2: z\nResult:     z\n"
    );
    let r = repl.process_command(&"(x".to_string()).unwrap();
    assert_eq!(r.err, "Error: Expected CloseParen, got EOF\n");
    assert_eq!(r.out, "");
    let r = repl.process_command(&"history".to_string()).unwrap();
    assert_eq!(r.out, "1: id z\n2: (x\n");
    let r = repl.process_command(&"clear".to_string()).unwrap();
    assert_eq!(r.out, "History cleared\n");
    let r = repl.process_command(&"history".to_string()).unwrap();
    assert_eq!(r.out, "");
    let r = repl.process_command(&"help".to_string()).unwrap();
    assert!(r.out.starts_with("Commands:\n  help        - Show this help message\n"));
    assert!(r.out.ends_with("  \\x.\\y.x        - Constant function\n"));
    assert!(repl.process_command(&"\\".to_string()).is_none());
    let r = repl.process_command(&"quit".to_string()).unwrap();
    assert!(!r.keep_going);
    let r = repl.process_command(&"exit".to_string()).unwrap();
    assert!(!r.keep_going);
}

#[test]
fn repl_debug_shows_the_tree() {
    let mut repl = Repl::new(Preprocessor::new());
    repl.process_command(&"debug".to_string()).unwrap();
    let r = repl.process_command(&"y".to_string()).unwrap();
    assert_eq!(
        r.out,
        "Input:      y\nResult:     y\nAST:        Var(\n    \"y\",\n)\n"
    );
}

#[test]
fn repl_step_numbers_are_padded_to_two_columns() {
    let mut repl = Repl::new(with_macros(&[
        ":c \\f.\\x.f (f (f (f (f (f (f (f (f (f x)))))))))",
    ]));
    repl.process_command(&"steps".to_string()).unwrap();
    let r = repl.process_command(&"c (\\v.v) w".to_string()).unwrap();
    assert!(r.out.contains("\n  Step  9: "), "{}", r.out);
    assert!(r.out.contains("\n  Step 10: "), "{}", r.out);
    assert!(r.out.ends_with("Result:     w\n"), "{}", r.out);
}

#[test]
fn open_terms_reduce_to_normal_form() {
    // `one` is never defined: it stays a free variable.
    let p = with_macros(&[":S \\x.\\y.\\z.x z (y z)", ":id \\x.x"]);
    assert_eq!(normal("S id id one", &p), "one one");
}

#[test]
fn an_unused_cut_off_macro_does_no_harm() {
    let p = with_macros(&[":id \\x.x", ":bad \\"]);
    assert_eq!(normal("id z", &p), "z");
    let e = parse("id z");
    assert_eq!(
        process_expression(&"id z".to_string(), &e, &p, false),
        Some("Expr: id z\nResult: z\n\n".to_string())
    );
    let mut repl = Repl::new(with_macros(&[":bad \\"]));
    let r = repl.process_command(&"(\\x.x) y".to_string()).unwrap();
    assert_eq!(r.out, "Input:      (\\x.x) y\nResult:     y\n");
}

#[test]
fn reaching_a_cut_off_macro_gets_stuck() {
    let p = with_macros(&[":bad \\"]);
    match parse("f bad").beta_reduce_with_macros(&p) {
        Step::Stuck(m) => assert_eq!(m, "bad"),
        _ => panic!("expected to get stuck"),
    }
    assert_eq!(parse("(\\x.bad) y").normalize_with_macros(&p).err(), Some("bad".to_string()));
    let e = parse("bad");
    assert!(process_expression(&"bad".to_string(), &e, &p, true).is_none());
    let mut repl = Repl::new(with_macros(&[":bad \\"]));
    assert!(repl.process_command(&"bad x".to_string()).is_none());
    // The failed line leaves the history as it was.
    assert_eq!(repl.process_command(&"history".to_string()).unwrap().out, "");
}

#[test]
fn printed_terms_parse_back() {
    for src in ["(\\x.x) (y z)", "f (g x) h", "\\a.\\b.a (b a)", "(\\x.x x) (\\x.x x)", "a (b (c d)) e", "xé (x² _y)"] {
        let e = parse(src);
        let text = show(&e);
        let back = parse(&text);
        assert_eq!(show(&back), text, "{src}");
    }
}
