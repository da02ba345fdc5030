use purell::compiler::ast::Expr;
use purell::compiler::closure::{Capture, Converter, Program, Term};
use purell::compiler::driver::{compile_unit, default_output, parse_args};
use purell::compiler::lexer::{lex, parse_expr};
use purell::compiler::preprocessor::{strip_comment, LoadStep, Preprocessor, SourceExpr, Unit};

fn convert(source: &str) -> Result<Program, String> {
    let expr = parse_expr(source)?;
    let mut converter = Converter::new();
    let top = converter.convert_top(source, &expr)?;
    Ok(converter.finish(vec![top]))
}

fn show(source: &str) -> String {
    parse_expr(source).expect("should parse").show()
}

fn unit(macros: &[(&str, &str)]) -> Unit {
    Unit {
        macros: macros
            .iter()
            .map(|(k, v)| (k.to_string(), v.to_string()))
            .collect(),
        exprs: Vec::new(),
    }
}

fn source_unit(macros: &[(&str, &str)], sources: &[&str]) -> Unit {
    let mut u = unit(macros);
    for (i, s) in sources.iter().enumerate() {
        u.exprs.push(SourceExpr {
            source: s.to_string(),
            origin: "prog.pl".to_string(),
            line: 2 * i + 1,
        });
    }
    u
}

fn args(list: &[&str]) -> Vec<String> {
    list.iter().map(|s| s.to_string()).collect()
}

fn lines(text: &str) -> Vec<String> {
    text.lines().map(|l| l.to_string()).collect()
}

#[test]
fn identity_captures_nothing() {
    let program = convert("\\x.x").unwrap();
    assert_eq!(program.lams.len(), 1);
    assert!(program.lams[0].env.is_empty());
    assert!(matches!(program.lams[0].body, Term::Param));
}

#[test]
fn inner_lambda_captures_outer_param() {
    let program = convert("\\x.\\y.x").unwrap();
    assert_eq!(program.lams.len(), 2);
    // The inner lambda captures `x`...
    assert_eq!(program.lams[1].env, vec!["x".to_string()]);
    assert!(matches!(program.lams[1].body, Term::Env(0)));
    // ...taken from the outer lambda's parameter.
    match &program.lams[0].body {
        Term::MakeClosure { captures, .. } => {
            assert_eq!(captures.len(), 1);
            assert!(matches!(captures[0], Capture::Param));
        }
        other => panic!("expected a closure allocation, got {other:?}"),
    }
}

#[test]
fn capture_is_threaded_through_two_levels() {
    // `z` must be copied into the middle closure to reach the innermost.
    let program = convert("\\z.\\y.\\x.z").unwrap();
    assert_eq!(program.lams[1].env, vec!["z".to_string()]);
    assert_eq!(program.lams[2].env, vec!["z".to_string()]);
}

#[test]
fn primitives_are_not_captured() {
    let program = convert("\\x.+ x 1").unwrap();
    assert!(program.lams[0].env.is_empty());
}

#[test]
fn unbound_variables_are_rejected() {
    let err = convert("\\x.y").unwrap_err();
    assert!(err.contains("unbound variable 'y'"), "{err}");
}

#[test]
fn application_is_left_associative() {
    assert_eq!(show("f x y"), "f x y");
    assert_eq!(show("f (x y)"), "f (x y)");
}

#[test]
fn lambda_body_extends_right() {
    assert_eq!(show("\\x.f x y"), "\\x.f x y");
    assert_eq!(show("(\\x.x) y"), "(\\x.x) y");
}

#[test]
fn operators_are_identifiers() {
    assert_eq!(show("+ 1 2"), "+ 1 2");
    assert_eq!(show("<= a b"), "<= a b");
}

#[test]
fn negative_literals_need_no_space() {
    assert_eq!(show("+ 1 -5"), "+ 1 -5");
    // With a space, `-` is the subtraction primitive.
    assert_eq!(show("- 1 5"), "- 1 5");
}

#[test]
fn lexer_oversized_literals_are_rejected() {
    assert!(parse_expr("4611686018427387904").is_err());
    assert!(parse_expr("4611686018427387903").is_ok());
}

#[test]
fn digits_glued_to_letters_are_rejected() {
    assert!(parse_expr("12abc").is_err());
}

#[test]
fn expands_nested_macros() {
    let unit = unit(&[("id", "\\x.x"), ("twice", "\\f.\\x.f (f x)")]);
    let expr = parse_expr("twice id").unwrap();
    assert_eq!(unit.expand(&expr).unwrap().show(), "(\\f.\\x.f (f x)) (\\x.x)");
}

#[test]
fn self_referential_macro_is_an_error() {
    let unit = unit(&[("loop", "\\x.loop x")]);
    let expr = parse_expr("loop").unwrap();
    let err = unit.expand(&expr).unwrap_err();
    assert!(err.contains("expands into itself"), "{err}");
}

#[test]
fn parameter_shadows_macro() {
    let unit = unit(&[("x", "42")]);
    let expr = parse_expr("\\x.x").unwrap();
    assert_eq!(unit.expand(&expr).unwrap().show(), "\\x.x");
}

#[test]
fn comments_are_stripped_mid_line() {
    assert_eq!(strip_comment("\\x.x # identity").trim(), "\\x.x");
}

#[test]
fn unbound_variables_are_caught_at_compile_time() {
    let u = source_unit(&[], &["\\x.y"]);
    let (_, result) = compile_unit(&u, &"unbound.pl".to_string(), false);
    let err = result.err().expect("should fail");
    assert!(err.contains("unbound variable 'y'"), "{err}");
}

#[test]
fn self_referential_macros_are_caught_at_compile_time() {
    let mut p = Preprocessor::new(Vec::new());
    let step = p
        .load_lines(&lines(":loop \\x.loop x\n\nloop 1\n"), 0, &"recmacro.pl".to_string())
        .unwrap();
    assert!(matches!(step, LoadStep::Done));
    let u = p.into_unit();
    let (_, result) = compile_unit(&u, &"recmacro.pl".to_string(), false);
    let err = result.err().expect("should fail");
    assert!(err.contains("expands into itself"), "{err}");
}

#[test]
fn programs_oversized_literals_are_rejected() {
    let u = source_unit(&[], &["4611686018427387904"]);
    let (_, result) = compile_unit(&u, &"toobig.pl".to_string(), false);
    let err = result.err().expect("should fail");
    assert!(err.contains("does not fit in 63 bits"), "{err}");
}

// ---- further cases

#[test]
fn cycle_error_names_the_path() {
    let unit = unit(&[("a", "b"), ("b", "a")]);
    let expr = parse_expr("a").unwrap();
    let err = unit.expand(&expr).unwrap_err();
    assert!(err.contains("(a -> b -> a)"), "{err}");
}

#[test]
fn later_macro_definition_wins() {
    let unit = unit(&[("k", "1"), ("k", "2")]);
    let expr = parse_expr("k").unwrap();
    assert_eq!(unit.expand(&expr).unwrap().show(), "2");
}

#[test]
fn macro_body_parse_errors_name_the_macro() {
    let unit = unit(&[("bad", "(x")]);
    let expr = parse_expr("bad").unwrap();
    let err = unit.expand(&expr).unwrap_err();
    assert!(err.starts_with("in macro 'bad': "), "{err}");
}

#[test]
fn free_variables_are_sorted_and_distinct() {
    let e = parse_expr("\\x.b a x b").unwrap();
    assert_eq!(e.free_vars(), vec!["a".to_string(), "b".to_string()]);
}

#[test]
fn environment_layout_is_sorted() {
    let program = convert("\\q.\\p.\\x.+ q p").unwrap();
    assert_eq!(program.lams[2].env, vec!["p".to_string(), "q".to_string()]);
    assert_eq!(program.lams[2].id, 2);
}

#[test]
fn numbers_and_primitives_convert_directly() {
    let program = convert("+ 1 2").unwrap();
    assert!(program.lams.is_empty());
    match &program.tops[0].term {
        Term::App(left, right) => {
            assert!(matches!(**right, Term::Num(2)));
            match &**left {
                Term::App(f, one) => {
                    assert!(matches!(**f, Term::Prim("imp_prim_add")));
                    assert!(matches!(**one, Term::Num(1)));
                }
                other => panic!("unexpected {other:?}"),
            }
        }
        other => panic!("unexpected {other:?}"),
    }
    assert_eq!(program.tops[0].source, "+ 1 2");
}

#[test]
fn lexer_rejects_stray_characters() {
    let err = parse_expr("x ; y").unwrap_err();
    assert!(!err.is_empty());
    assert!(lex("\\x.x").unwrap().len() == 4);
}

#[test]
fn most_negative_literal_is_accepted() {
    assert!(parse_expr("-4611686018427387904").is_ok());
    assert!(parse_expr("-4611686018427387905").is_err());
}

#[test]
fn parser_reports_unclosed_parenthesis() {
    assert!(parse_expr("(f x").is_err());
    assert!(parse_expr("").is_err());
}

#[test]
fn load_joins_lines_and_splits_on_blank_lines() {
    let mut p = Preprocessor::new(Vec::new());
    let text = "# header\nf x\n  y  # tail\n\n:id \\x.x\nid\n";
    let step = p.load_lines(&lines(text), 0, &"m.pl".to_string()).unwrap();
    assert!(matches!(step, LoadStep::Done));
    let u = p.into_unit();
    assert_eq!(u.macros, vec![("id".to_string(), "\\x.x".to_string())]);
    assert_eq!(u.exprs.len(), 2);
    assert_eq!(u.exprs[0].source, "f x y");
    assert_eq!(u.exprs[0].line, 2);
    assert_eq!(u.exprs[1].source, "id");
    assert_eq!(u.exprs[1].line, 6);
    assert_eq!(u.exprs[1].origin, "m.pl");
}

#[test]
fn load_stops_at_includes() {
    let mut p = Preprocessor::new(Vec::new());
    let text = "a\n@ prelude.pl \nb\n";
    match p.load_lines(&lines(text), 0, &"m.pl".to_string()).unwrap() {
        LoadStep::Include { name, line, next } => {
            assert_eq!(name, "prelude.pl");
            assert_eq!(line, 2);
            assert_eq!(next, 2);
        }
        LoadStep::Done => panic!("expected an include"),
    }
    let err = p.load_lines(&lines("@x.txt"), 0, &"m.pl".to_string()).unwrap_err();
    assert_eq!(err, "m.pl:1: include file must end in .pl: x.txt");
}

#[test]
fn bad_macro_definitions_are_located() {
    let mut p = Preprocessor::new(Vec::new());
    let err = p.load_lines(&lines("\n:onlyname\n"), 0, &"m.pl".to_string()).unwrap_err();
    assert_eq!(err, "m.pl:2: macro definition must be ':name body'");
    let err = p.load_lines(&lines(":m (x\n"), 0, &"m.pl".to_string()).unwrap_err();
    assert!(err.starts_with("m.pl:1: in macro 'm': "), "{err}");
}

#[test]
fn compile_unit_dumps_and_locates() {
    let u = source_unit(&[("id", "\\x.x")], &["id 1", "\\x.z"]);
    let (dumps, result) = compile_unit(&u, &"prog.pl".to_string(), true);
    assert_eq!(
        dumps,
        vec!["prog.pl:1: (\\x.x) 1".to_string(), "prog.pl:3: \\x.z".to_string()]
    );
    assert_eq!(result.err().unwrap(), "prog.pl:3: unbound variable 'z'");
}

#[test]
fn compile_unit_converts_every_expression() {
    let u = source_unit(&[], &["(\\x.x) 1", "\\y.y"]);
    let (dumps, result) = compile_unit(&u, &"prog.pl".to_string(), false);
    assert!(dumps.is_empty());
    let program = result.unwrap();
    assert_eq!(program.lams.len(), 2);
    assert_eq!(program.tops.len(), 2);
    assert_eq!(program.tops[1].source, "\\y.y");
    assert!(matches!(program.tops[1].term, Term::MakeClosure { lam: 1, .. }));
}

#[test]
fn empty_unit_is_an_error() {
    let u = source_unit(&[], &[]);
    let (dumps, result) = compile_unit(&u, &"empty.pl".to_string(), true);
    assert!(dumps.is_empty());
    assert_eq!(result.err().unwrap(), "no expressions in empty.pl");
}

#[test]
fn parse_args_reads_every_option() {
    let o = parse_args(&args(&[
        "-o", "out", "-I", "std", "-I", "lib", "--build-dir", "tmp", "-O+3", "--emit-llvm",
        "--dump-ast", "--verify", "--run", "prog.pl",
    ]))
    .unwrap();
    assert_eq!(o.input, "prog.pl");
    assert_eq!(o.output, Some("out".to_string()));
    assert_eq!(o.work_dir, "tmp");
    assert_eq!(o.include_paths, vec!["std".to_string(), "lib".to_string()]);
    assert_eq!(o.opt_level, 3);
    assert!(o.emit_llvm && o.dump_ast && o.verify && o.run);
}

#[test]
fn parse_args_defaults() {
    let o = parse_args(&args(&["prog.pl"])).unwrap();
    assert_eq!(o.output, None);
    assert_eq!(o.work_dir, "build");
    assert!(o.include_paths.is_empty());
    assert_eq!(o.opt_level, 2);
    assert!(!o.emit_llvm && !o.dump_ast && !o.verify && !o.run);
}

#[test]
fn parse_args_errors() {
    assert_eq!(parse_args(&args(&["-o"])).err().unwrap(), "-o needs a path");
    assert_eq!(parse_args(&args(&["a.pl", "-I"])).err().unwrap(), "-I needs a directory");
    assert_eq!(parse_args(&args(&["--build-dir"])).err().unwrap(), "--build-dir needs a path");
    assert_eq!(parse_args(&args(&["-O4", "a.pl"])).err().unwrap(), "bad optimization level '-O4'");
    assert_eq!(parse_args(&args(&["-O", "a.pl"])).err().unwrap(), "bad optimization level '-O'");
    assert_eq!(parse_args(&args(&["-O-1"])).err().unwrap(), "bad optimization level '-O-1'");
    assert_eq!(parse_args(&args(&["-O256"])).err().unwrap(), "bad optimization level '-O256'");
    assert_eq!(parse_args(&args(&["-x"])).err().unwrap(), "unknown option '-x'");
    assert_eq!(parse_args(&args(&["a.pl", "b.pl"])).err().unwrap(), "more than one input file given");
    assert_eq!(parse_args(&args(&[])).err().unwrap(), "no input file");
    assert_eq!(parse_args(&args(&["-O003", "a.pl"])).unwrap().opt_level, 3);
}

#[test]
fn show_parses_back() {
    let var = |n: &str| Box::new(Expr::Var(n.to_string()));
    let terms = vec![
        Expr::App(
            Box::new(Expr::Fun { arg: "x".to_string(), body: var("x") }),
            Box::new(Expr::Num(-5)),
        ),
        Expr::App(var("f"), Box::new(Expr::App(var("g"), Box::new(Expr::Num(4611686018427387903))))),
        Expr::Fun {
            arg: "+".to_string(),
            body: Box::new(Expr::App(var("<="), Box::new(Expr::Fun { arg: "y".to_string(), body: var("y'") }))),
        },
        Expr::App(Box::new(Expr::App(var("a"), var("b"))), var("c")),
    ];
    for e in terms {
        let text = e.show();
        let back = parse_expr(&text).expect("shown text parses");
        assert_eq!(format!("{:?}", back), format!("{:?}", e), "{text}");
    }
}

#[test]
fn bound_primitive_names_are_captured() {
    let program = convert("\\true.\\false.true").unwrap();
    assert_eq!(program.lams[1].env, vec!["true".to_string()]);
    assert!(matches!(program.lams[1].body, Term::Env(0)));
    match &program.lams[0].body {
        Term::MakeClosure { lam, captures } => {
            assert_eq!(*lam, 1);
            assert_eq!(captures, &vec![Capture::Param]);
        }
        other => panic!("expected a closure allocation, got {other:?}"),
    }
    // An unbound primitive is still a global.
    let program = convert("\\x.true").unwrap();
    assert!(program.lams[0].env.is_empty());
}

#[test]
fn macro_bodies_are_not_captured_at_the_use_site() {
    let unit = unit(&[("inc", "+ 1")]);
    let expr = parse_expr("\\+.inc").unwrap();
    let expanded = unit.expand(&expr).unwrap();
    assert_eq!(expanded.show(), "\\+=.+ 1");
    assert!(parse_expr(&expanded.show()).is_ok());
    assert!(expanded.free_vars().contains(&"+".to_string()));
    // No renaming where nothing would be captured.
    let expr = parse_expr("\\y.inc y").unwrap();
    assert_eq!(unit.expand(&expr).unwrap().show(), "\\y.+ 1 y");
}

#[test]
fn default_output_drops_the_extension() {
    assert_eq!(default_output("examples/fact.pl", "build"), "build/fact");
    assert_eq!(default_output("prog", "out/"), "out/prog");
    assert_eq!(default_output("..", "build"), "build/program");
}
