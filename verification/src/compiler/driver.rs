//! The compiler's driver logic: its command line and the passes from a loaded
//! unit to a closure-converted program.
use vstd::prelude::*;

use crate::compiler::ast::show_spec;
use crate::compiler::closure::{
    conv, lams_view, lemma_conversion_well_formed, lemma_term_wf_mono, program_wf, term_wf, Converter,
    LamV, Program, TermV, TopLevel,
};
use crate::compiler::lexer::{parse_expr, parse_spec};
use crate::compiler::preprocessor::{expand_spec, sources_view, SourceExpr, SourceV, Unit};
use crate::text::{
    append_str, append_string, chars_of, digits_value, int_text, is_digit, is_digit_char,
    push_nat_text, string_of, text_is, texts,
};

verus! {

/// `origin:line`, the place of a source expression in diagnostics.
pub open spec fn location_spec(s: SourceV) -> Seq<char> {
    s.origin + ":"@ + int_text(s.line)
}

/// The outcome of the front end: the AST dumps written so far, the lifted
/// functions, and the converted top-level expressions (source and term) or
/// the first error.
pub struct FrontV {
    pub dumps: Seq<Seq<char>>,
    pub lams: Seq<LamV>,
    pub tops: Result<Seq<(Seq<char>, TermV)>, Seq<char>>,
}

/// Front end over the source expressions `exprs[i..]`, having produced
/// `dumps`, `lams` and `tops` so far: each expression is parsed, its macros
/// are expanded, its expansion is dumped when `dump` is set, and it is
/// closure-converted; the first failure, prefixed with its location, stops.
pub open spec fn front_from(
    macros: Map<Seq<char>, Seq<char>>,
    exprs: Seq<SourceV>,
    i: int,
    dump: bool,
    dumps: Seq<Seq<char>>,
    lams: Seq<LamV>,
    tops: Seq<(Seq<char>, TermV)>,
) -> FrontV
    decreases exprs.len() - i,
{
    if i < 0 || i >= exprs.len() {
        FrontV { dumps, lams, tops: Ok(tops) }
    } else {
        let s = exprs[i];
        let loc = location_spec(s);
        match parse_spec(s.source) {
            Err(e) => FrontV { dumps, lams, tops: Err(loc + ": "@ + e) },
            Ok(parsed) => match expand_spec(macros, parsed, Seq::empty(), Seq::empty()) {
                Err(e) => FrontV { dumps, lams, tops: Err(loc + ": "@ + e) },
                Ok(x) => {
                    let d = if dump {
                        dumps.push(loc + ": "@ + show_spec(x))
                    } else {
                        dumps
                    };
                    let (lams1, r) = conv(lams, x, None, Seq::empty());
                    match r {
                        Err(e) => FrontV { dumps: d, lams: lams1, tops: Err(loc + ": "@ + e) },
                        Ok(t) => front_from(macros, exprs, i + 1, dump, d, lams1, tops.push((s.source, t))),
                    }
                },
            },
        }
    }
}

/// The front end over a whole unit.
pub open spec fn front_spec(macros: Map<Seq<char>, Seq<char>>, exprs: Seq<SourceV>, dump: bool) -> FrontV {
    front_from(macros, exprs, 0, dump, Seq::empty(), Seq::empty(), Seq::empty())
}

pub open spec fn tops_view(v: Seq<TopLevel>) -> Seq<(Seq<char>, TermV)> {
    v.map_values(|t: TopLevel| (t.source@, t.term@))
}

proof fn lemma_front_from_wf(
    macros: Map<Seq<char>, Seq<char>>,
    exprs: Seq<SourceV>,
    i: int,
    dump: bool,
    dumps: Seq<Seq<char>>,
    lams: Seq<LamV>,
    tops: Seq<(Seq<char>, TermV)>,
)
    requires
        program_wf(lams),
        forall|k: int| 0 <= k < tops.len() ==> term_wf(#[trigger] tops[k].1, false, 0, lams, 0),
    ensures
        front_from(macros, exprs, i, dump, dumps, lams, tops).tops matches Ok(ts) ==> {
            &&& program_wf(front_from(macros, exprs, i, dump, dumps, lams, tops).lams)
            &&& forall|k: int|
                0 <= k < ts.len() ==> term_wf(
                    #[trigger] ts[k].1,
                    false,
                    0,
                    front_from(macros, exprs, i, dump, dumps, lams, tops).lams,
                    0,
                )
        },
    decreases exprs.len() - i,
{
    if 0 <= i < exprs.len() {
        let s = exprs[i];
        let loc = location_spec(s);
        if let Ok(parsed) = parse_spec(s.source) {
            if let Ok(x) = expand_spec(macros, parsed, Seq::empty(), Seq::empty()) {
                let d = if dump {
                    dumps.push(loc + ": "@ + show_spec(x))
                } else {
                    dumps
                };
                let (lams1, r) = conv(lams, x, None, Seq::empty());
                lemma_conversion_well_formed(lams, x);
                if let Ok(t) = r {
                    let tops1 = tops.push((s.source, t));
                    assert forall|k: int| 0 <= k < tops1.len() implies term_wf(
                        #[trigger] tops1[k].1,
                        false,
                        0,
                        lams1,
                        0,
                    ) by {
                        if k < tops.len() {
                            lemma_term_wf_mono(tops[k].1, false, 0, lams, lams1, 0, 0);
                        } else {
                            lemma_term_wf_mono(t, false, 0, lams1, lams1, lams.len() as int, 0);
                        }
                    }
                    lemma_front_from_wf(macros, exprs, i + 1, dump, d, lams1, tops1);
                }
            }
        }
    }
}

/// The front end hands code generation a closed program: when every
/// expression of a unit converts, every lifted function is well formed (see
/// `lemma_conversion_well_formed`) and every top-level term reads no
/// parameter or environment slot and allocates only closures over lifted
/// functions, filling their whole environment.
pub proof fn lemma_front_end_well_formed(macros: Map<Seq<char>, Seq<char>>, exprs: Seq<SourceV>, dump: bool)
    ensures
        front_spec(macros, exprs, dump).tops matches Ok(ts) ==> {
            &&& program_wf(front_spec(macros, exprs, dump).lams)
            &&& forall|k: int|
                0 <= k < ts.len() ==> term_wf(#[trigger] ts[k].1, false, 0, front_spec(macros, exprs, dump).lams, 0)
        },
{
    lemma_front_from_wf(macros, exprs, 0, dump, Seq::empty(), Seq::empty(), Seq::empty());
}

/// Relates the executable outcome of the front end to its specification.
pub open spec fn front_matches(r: (Vec<String>, Result<Program, String>), f: FrontV) -> bool {
    &&& texts(r.0@) == f.dumps
    &&& match (r.1, f.tops) {
        (Ok(p), Ok(ts)) => lams_view(p.lams@) == f.lams && tops_view(p.tops@) == ts,
        (Err(e), Err(m)) => e@ == m,
        _ => false,
    }
}

/// Text `origin:line` of a source expression.
fn location(s: &SourceExpr) -> (r: String)
    ensures
        r@ == location_spec(s@),
{
    let mut t = string_of(s.origin.as_str());
    append_str(&mut t, ":");
    push_nat_text(&mut t, s.line as u128);
    t
}

/// Text `loc: e`.
fn at_location(loc: &String, e: &String) -> (r: String)
    ensures
        r@ == loc@ + ": "@ + e@,
{
    let mut t = string_of(loc.as_str());
    append_str(&mut t, ": ");
    append_string(&mut t, e);
    t
}

/// Parse, expand and closure-convert every expression of `unit`, in order.
/// The first value holds the AST dumps (`origin:line: expansion`) made before
/// the outcome is known, one per converted expression when `dump_ast` is set.
/// A unit without expressions is an error naming `input`.
pub fn compile_unit(unit: &Unit, input: &String, dump_ast: bool) -> (r: (Vec<String>, Result<Program, String>))
    ensures
        unit.exprs@.len() == 0 ==> r.0@.len() == 0 && (r.1 matches Err(e) && e@ == "no expressions in "@ + input@),
        unit.exprs@.len() > 0 ==> front_matches(r, front_spec(unit.macros_spec(), sources_view(unit.exprs@), dump_ast)),
{
    if unit.exprs.len() == 0 {
        let mut e = string_of("no expressions in ");
        append_string(&mut e, input);
        return (Vec::new(), Err(e));
    }
    let ghost macros = unit.macros_spec();
    let ghost exprs = sources_view(unit.exprs@);
    let mut dumps: Vec<String> = Vec::new();
    let mut converter = Converter::new();
    let mut tops: Vec<TopLevel> = Vec::new();
    let mut i: usize = 0;
    assert(texts(dumps@) =~= Seq::<Seq<char>>::empty());
    assert(tops_view(tops@) =~= Seq::<(Seq<char>, TermV)>::empty());
    while i < unit.exprs.len()
        invariant
            macros == unit.macros_spec(),
            exprs == sources_view(unit.exprs@),
            0 <= i <= exprs.len(),
            front_spec(macros, exprs, dump_ast) == front_from(
                macros,
                exprs,
                i as int,
                dump_ast,
                texts(dumps@),
                converter@,
                tops_view(tops@),
            ),
        decreases unit.exprs.len() - i,
    {
        let source_expr = &unit.exprs[i];
        assert(exprs[i as int] == source_expr@);
        let loc = location(source_expr);
        let parsed = match parse_expr(source_expr.source.as_str()) {
            Ok(p) => p,
            Err(e) => {
                let e = at_location(&loc, &e);
                return (dumps, Err(e));
            },
        };
        let expanded = match unit.expand(&parsed) {
            Ok(x) => x,
            Err(e) => {
                let e = at_location(&loc, &e);
                return (dumps, Err(e));
            },
        };
        if dump_ast {
            let shown = expanded.show();
            let line = at_location(&loc, &shown);
            let ghost d0 = texts(dumps@);
            dumps.push(line);
            assert(texts(dumps@) =~= d0.push(line@));
        }
        match converter.convert_top(source_expr.source.as_str(), &expanded) {
            Ok(top) => {
                let ghost t0 = tops_view(tops@);
                tops.push(top);
                assert(tops_view(tops@) =~= t0.push((source_expr.source@, top.term@)));
            },
            Err(e) => {
                let e = at_location(&loc, &e);
                return (dumps, Err(e));
            },
        }
        i = i + 1;
    }
    let program = converter.finish(tops);
    (dumps, Ok(program))
}


/// What the command line asks for.
#[derive(Debug)]
pub struct Options {
    pub input: String,
    pub output: Option<String>,
    pub work_dir: String,
    pub include_paths: Vec<String>,
    pub opt_level: u8,
    pub emit_llvm: bool,
    pub dump_ast: bool,
    pub verify: bool,
    pub run: bool,
}

/// Options as text; `input` is `None` until an input file is named.
pub struct OptionsV {
    pub input: Option<Seq<char>>,
    pub output: Option<Seq<char>>,
    pub work_dir: Seq<char>,
    pub include_paths: Seq<Seq<char>>,
    pub opt_level: int,
    pub emit_llvm: bool,
    pub dump_ast: bool,
    pub verify: bool,
    pub run: bool,
}

pub open spec fn opt_text_view(o: Option<String>) -> Option<Seq<char>> {
    match o {
        Some(s) => Some(s@),
        None => None,
    }
}

impl View for Options {
    type V = OptionsV;

    open spec fn view(&self) -> OptionsV {
        OptionsV {
            input: Some(self.input@),
            output: opt_text_view(self.output),
            work_dir: self.work_dir@,
            include_paths: texts(self.include_paths@),
            opt_level: self.opt_level as int,
            emit_llvm: self.emit_llvm,
            dump_ast: self.dump_ast,
            verify: self.verify,
            run: self.run,
        }
    }
}

/// The options before any argument is read.
pub open spec fn default_options() -> OptionsV {
    OptionsV {
        input: None,
        output: None,
        work_dir: "build"@,
        include_paths: Seq::empty(),
        opt_level: 2,
        emit_llvm: false,
        dump_ast: false,
        verify: false,
        run: false,
    }
}

/// The digits of an unsigned decimal numeral as `u8::from_str` reads it: an
/// optional leading `+`.
pub open spec fn unsigned_digits(t: Seq<char>) -> Seq<char> {
    if t.len() > 0 && t[0] == '+' {
        t.skip(1)
    } else {
        t
    }
}

/// The optimization level that the text after `-O` names: a decimal numeral
/// (optionally signed with `+`) of value at most 3.
pub open spec fn opt_level_spec(t: Seq<char>) -> Option<int> {
    let d = unsigned_digits(t);
    if d.len() > 0 && (forall|k: int| 0 <= k < d.len() ==> is_digit_char(#[trigger] d[k])) && digits_value(d)
        <= 3 {
        Some(digits_value(d) as int)
    } else {
        None
    }
}

/// Reading the arguments `args[i..]` into the options `o`.
pub open spec fn args_from(args: Seq<Seq<char>>, i: int, o: OptionsV) -> Result<OptionsV, Seq<char>>
    decreases args.len() - i,
{
    if i < 0 || i >= args.len() {
        Ok(o)
    } else {
        let a = args[i];
        if a == "-o"@ {
            if i + 1 < args.len() {
                args_from(args, i + 2, OptionsV { output: Some(args[i + 1]), ..o })
            } else {
                Err("-o needs a path"@)
            }
        } else if a == "-I"@ {
            if i + 1 < args.len() {
                args_from(args, i + 2, OptionsV { include_paths: o.include_paths.push(args[i + 1]), ..o })
            } else {
                Err("-I needs a directory"@)
            }
        } else if a == "--build-dir"@ {
            if i + 1 < args.len() {
                args_from(args, i + 2, OptionsV { work_dir: args[i + 1], ..o })
            } else {
                Err("--build-dir needs a path"@)
            }
        } else if a == "--emit-llvm"@ {
            args_from(args, i + 1, OptionsV { emit_llvm: true, ..o })
        } else if a == "--dump-ast"@ {
            args_from(args, i + 1, OptionsV { dump_ast: true, ..o })
        } else if a == "--verify"@ {
            args_from(args, i + 1, OptionsV { verify: true, ..o })
        } else if a == "--run"@ {
            args_from(args, i + 1, OptionsV { run: true, ..o })
        } else if a.len() >= 2 && a[0] == '-' && a[1] == 'O' {
            match opt_level_spec(a.skip(2)) {
                Some(n) => args_from(args, i + 1, OptionsV { opt_level: n, ..o }),
                None => Err("bad optimization level '"@ + a + "'"@),
            }
        } else if a.len() > 0 && a[0] == '-' {
            Err("unknown option '"@ + a + "'"@)
        } else if o.input is Some {
            Err("more than one input file given"@)
        } else {
            args_from(args, i + 1, OptionsV { input: Some(a), ..o })
        }
    }
}

/// The options that the command-line arguments `args` ask for.
pub open spec fn parse_args_spec(args: Seq<Seq<char>>) -> Result<OptionsV, Seq<char>> {
    match args_from(args, 0, default_options()) {
        Ok(o) => if o.input is Some {
            Ok(o)
        } else {
            Err("no input file"@)
        },
        Err(e) => Err(e),
    }
}

/// Text `prefix'arg'`.
fn quoted(prefix: &str, arg: &String) -> (r: String)
    ensures
        r@ == prefix@ + arg@ + "'"@,
{
    let mut e = string_of(prefix);
    append_string(&mut e, arg);
    append_str(&mut e, "'");
    e
}

/// The optimization level named by `cs[2..]`, the text after `-O`.
fn parse_opt_level(cs: &Vec<char>) -> (r: Option<u8>)
    requires
        cs@.len() >= 2,
    ensures
        match (r, opt_level_spec(cs@.skip(2))) {
            (Some(n), Some(m)) => n as int == m,
            (None, None) => true,
            _ => false,
        },
{
    let ghost t = cs@.skip(2);
    let mut k: usize = 2;
    if cs.len() > 2 && cs[2] == '+' {
        k = 3;
    }
    let ghost d = cs@.skip(k as int);
    assert(unsigned_digits(t) =~= d);
    if k >= cs.len() {
        return None;
    }
    // The value of the digits read so far, capped at 4.
    let mut v: u8 = 0;
    let mut j = k;
    while j < cs.len()
        invariant
            k <= j <= cs@.len(),
            d == cs@.skip(k as int),
            unsigned_digits(cs@.skip(2)) == d,
            forall|m: int| 0 <= m < j - k ==> is_digit_char(#[trigger] d[m]),
            v as int == if digits_value(d.take(j - k)) < 4 { digits_value(d.take(j - k)) as int } else { 4 },
        decreases cs.len() - j,
    {
        if !is_digit(cs[j]) {
            assert(d[j - k] == cs@[j as int]);
            assert(!is_digit_char(d[j - k]));
            return None;
        }
        assert(d.take(j - k + 1).drop_last() =~= d.take(j - k));
        assert(d.take(j - k + 1).last() == cs@[j as int]);
        let digit = (cs[j] as u32 - '0' as u32) as u8;
        if v >= 4 {
            v = 4;
        } else {
            let w = v * 10 + digit;
            v = if w < 4 { w } else { 4 };
        }
        j = j + 1;
    }
    assert(d.take(j - k) =~= d);
    if v > 3 {
        None
    } else {
        Some(v)
    }
}

/// Read the command-line arguments (without the program name).
pub fn parse_args(args: &Vec<String>) -> (r: Result<Options, String>)
    ensures
        match (r, parse_args_spec(texts(args@))) {
            (Ok(o), Ok(v)) => o@ == v,
            (Err(e), Err(m)) => e@ == m,
            _ => false,
        },
{
    let ghost a = texts(args@);
    let mut input: Option<String> = None;
    let mut output: Option<String> = None;
    let mut work_dir = string_of("build");
    let mut include_paths: Vec<String> = Vec::new();
    let mut opt_level: u8 = 2;
    let mut emit_llvm = false;
    let mut dump_ast = false;
    let mut verify = false;
    let mut run = false;
    proof {
        reveal_strlit("build");
    }
    assert(texts(include_paths@) =~= Seq::<Seq<char>>::empty());
    let mut index: usize = 0;
    while index < args.len()
        invariant
            a == texts(args@),
            index <= args@.len(),
            args_from(a, 0, default_options()) == args_from(
                a,
                index as int,
                OptionsV {
                    input: opt_text_view(input),
                    output: opt_text_view(output),
                    work_dir: work_dir@,
                    include_paths: texts(include_paths@),
                    opt_level: opt_level as int,
                    emit_llvm,
                    dump_ast,
                    verify,
                    run,
                },
            ),
        decreases args.len() - index,
    {
        let arg = &args[index];
        assert(a[index as int] == arg@);
        if text_is(arg, "-o") {
            index = index + 1;
            if index >= args.len() {
                return Err(string_of("-o needs a path"));
            }
            assert(a[index as int] == args@[index as int]@);
            output = Some(args[index].clone());
        } else if text_is(arg, "-I") {
            index = index + 1;
            if index >= args.len() {
                return Err(string_of("-I needs a directory"));
            }
            assert(a[index as int] == args@[index as int]@);
            let ghost p0 = texts(include_paths@);
            include_paths.push(args[index].clone());
            assert(texts(include_paths@) =~= p0.push(a[index as int]));
        } else if text_is(arg, "--build-dir") {
            index = index + 1;
            if index >= args.len() {
                return Err(string_of("--build-dir needs a path"));
            }
            assert(a[index as int] == args@[index as int]@);
            work_dir = args[index].clone();
        } else if text_is(arg, "--emit-llvm") {
            emit_llvm = true;
        } else if text_is(arg, "--dump-ast") {
            dump_ast = true;
        } else if text_is(arg, "--verify") {
            verify = true;
        } else if text_is(arg, "--run") {
            run = true;
        } else {
            let cs = chars_of(arg.as_str());
            if cs.len() >= 2 && cs[0] == '-' && cs[1] == 'O' {
                match parse_opt_level(&cs) {
                    Some(n) => {
                        opt_level = n;
                    },
                    None => {
                        return Err(quoted("bad optimization level '", arg));
                    },
                }
            } else if cs.len() > 0 && cs[0] == '-' {
                return Err(quoted("unknown option '", arg));
            } else if input.is_some() {
                return Err(string_of("more than one input file given"));
            } else {
                input = Some(arg.clone());
            }
        }
        index = index + 1;
    }
    match input {
        Some(input) => Ok(
            Options { input, output, work_dir, include_paths, opt_level, emit_llvm, dump_ast, verify, run },
        ),
        None => Err(string_of("no input file")),
    }
}

/// The stem of the path `path` (`Path::file_stem`): its file name without the
/// last extension, if it has a file name.
pub uninterp spec fn file_stem_name(path: Seq<char>) -> Option<Seq<char>>;

/// The path `base` joined with `name` (`Path::join`).
pub uninterp spec fn joined_path(base: Seq<char>, name: Seq<char>) -> Seq<char>;

/// `Path::file_stem` of the path `path`, as text. Trusted: the stem depends on
/// the text of `path` alone, and is named `file_stem_name`.
#[verifier::external_body]
fn file_stem(path: &str) -> (r: Option<String>)
    ensures
        opt_text_view(r) == file_stem_name(path@),
{
    std::path::Path::new(path).file_stem().map(|s| s.to_string_lossy().to_string())
}

/// `Path::join` of `base` and `name`, as text. Trusted: the result depends on
/// the two texts alone, and is named `joined_path`.
#[verifier::external_body]
fn join_path(base: &str, name: &str) -> (r: String)
    ensures
        r@ == joined_path(base@, name@),
{
    std::path::Path::new(base).join(name).to_string_lossy().to_string()
}

/// The executable written for `input` by default: its stem, or `program`
/// where it has none, placed in `work_dir`.
pub open spec fn default_output_spec(input: Seq<char>, work_dir: Seq<char>) -> Seq<char> {
    match file_stem_name(input) {
        Some(stem) => joined_path(work_dir, stem),
        None => joined_path(work_dir, "program"@),
    }
}

/// Default executable path for an input file: the input with its extension
/// dropped, placed in `work_dir`.
pub fn default_output(input: &str, work_dir: &str) -> (r: String)
    ensures
        r@ == default_output_spec(input@, work_dir@),
{
    match file_stem(input) {
        Some(stem) => join_path(work_dir, stem.as_str()),
        None => join_path(work_dir, "program"),
    }
}

} // verus!
