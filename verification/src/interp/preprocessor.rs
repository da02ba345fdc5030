//! Preprocessing for the interpreter: `#` comments, `:name body` macros,
//! `@file.pl` includes and blank-line-separated expressions. Macro bodies are
//! kept as text and expanded lazily during reduction.
use vstd::prelude::*;

use crate::compiler::preprocessor::{defs_view, lemma_macro_map_finite, lookup_macro, macro_map};
use crate::compiler::preprocessor::{ends_with, has_pl_suffix, strip_comment, strip_comment_spec};
use crate::text::{
    is_space_char, lemma_skip_space_bounds, lemma_trim_bounds, skip_space,
    append_str, append_string, chars_of, push_char, string_from_range, string_of, texts, trim,
    trim_range,
};

verus! {

/// Macro definitions and the directories searched for included files.
pub struct Preprocessor {
    macros: Vec<(String, String)>,
    include_paths: Vec<std::path::PathBuf>,
}

/// An expression of the source, as written.
#[derive(Debug)]
pub struct ProcessedExpr {
    pub original: String,
}

impl Default for Preprocessor {
    fn default() -> (r: Preprocessor)
        ensures
            r.macros_spec() == Map::<Seq<char>, Seq<char>>::empty(),
            r.paths() == Seq::<std::path::PathBuf>::empty(),
    {
        Preprocessor::new()
    }
}

impl Preprocessor {
    /// The macros, by name: the last definition of each.
    pub closed spec fn macros_spec(&self) -> Map<Seq<char>, Seq<char>> {
        macro_map(defs_view(self.macros@))
    }

    /// The directories searched for included files.
    pub closed spec fn paths(&self) -> Seq<std::path::PathBuf> {
        self.include_paths@
    }

    /// Create a new preprocessor
    pub fn new() -> (r: Preprocessor)
        ensures
            r.macros_spec() == Map::<Seq<char>, Seq<char>>::empty(),
            r.paths() == Seq::<std::path::PathBuf>::empty(),
    {
        let r = Preprocessor { macros: Vec::new(), include_paths: Vec::new() };
        assert(defs_view(r.macros@) =~= Seq::<(Seq<char>, Seq<char>)>::empty());
        r
    }

    /// A preprocessor without macros that searches `include_paths`.
    pub fn with_include_paths(include_paths: Vec<std::path::PathBuf>) -> (r: Preprocessor)
        ensures
            r.macros_spec() == Map::<Seq<char>, Seq<char>>::empty(),
            r.paths() == include_paths@,
    {
        let r = Preprocessor { macros: Vec::new(), include_paths };
        assert(defs_view(r.macros@) =~= Seq::<(Seq<char>, Seq<char>)>::empty());
        r
    }

    /// The directories searched for included files.
    pub fn include_paths(&self) -> (r: &Vec<std::path::PathBuf>)
        ensures
            r@ == self.paths(),
    {
        &self.include_paths
    }

    /// Get the expansion of a specific macro
    pub fn get_macro_expansion(&self, name: &String) -> (r: Option<String>)
        ensures
            match r {
                Some(b) => self.macros_spec().contains_key(name@) && b@ == self.macros_spec()[name@],
                None => !self.macros_spec().contains_key(name@),
            },
    {
        match lookup_macro(&self.macros, name) {
            Some(b) => Some(b.clone()),
            None => None,
        }
    }
}

/// Index of the first space character of `s` at or after `i`, or the length
/// of `s`.
pub open spec fn blank_start(s: Seq<char>, i: int) -> int
    decreases s.len() - i,
{
    if i < 0 || i >= s.len() {
        i
    } else if s[i] == ' ' {
        i
    } else {
        blank_start(s, i + 1)
    }
}

proof fn lemma_blank_start(s: Seq<char>, i: int)
    requires
        0 <= i <= s.len(),
    ensures
        i <= blank_start(s, i) <= s.len(),
        blank_start(s, i) < s.len() ==> s[blank_start(s, i)] == ' ',
    decreases s.len() - i,
{
    if i < s.len() && s[i] != ' ' {
        lemma_blank_start(s, i + 1);
    }
}

/// A macro definition line `:name body`, split at the first space after the
/// colon: the name and body, or the error.
pub open spec fn parse_macro_spec(line: Seq<char>) -> Result<(Seq<char>, Seq<char>), Seq<char>> {
    let l = trim(line);
    if l.len() == 0 || l[0] != ':' {
        Err("Macro definition must start with ':'"@)
    } else {
        let content = l.skip(1);
        let k = blank_start(content, 0);
        if k >= content.len() {
            Err("Macro definition must have format: :name body"@)
        } else {
            let name = trim(content.take(k));
            let body = trim(content.skip(k + 1));
            if name.len() == 0 || body.len() == 0 {
                Err("Macro name and body cannot be empty"@)
            } else {
                Ok((name, body))
            }
        }
    }
}

/// Where splitting a file stopped: at its end, or at an include of `name`,
/// to be resumed at line index `next`.
pub enum SplitV {
    Done,
    Include(Seq<char>, int),
}

/// `exprs` with the pending expression `current` added unless it is blank.
pub open spec fn push_pending(exprs: Seq<Seq<char>>, current: Seq<char>) -> Seq<Seq<char>> {
    if trim(current).len() > 0 {
        exprs.push(current)
    } else {
        exprs
    }
}

/// `current` after it was closed: emptied unless it is blank.
pub open spec fn after_pending(current: Seq<char>) -> Seq<char> {
    if trim(current).len() > 0 {
        Seq::empty()
    } else {
        current
    }
}

/// Splitting lines `i..` into blank-line-separated expressions, with the text
/// `current` accumulated so far: lines that start with `#` are skipped, and
/// in the others a `#` starts a comment that runs to the end of the line;
/// `:name body` lines define macros, `@file.pl` lines stop for an include,
/// and other lines are joined with a space. The macro definitions afterwards, and the
/// expressions found with where splitting stopped, or the error.
pub open spec fn split_spec(
    lines: Seq<Seq<char>>,
    i: int,
    current: Seq<char>,
    defs: Seq<(Seq<char>, Seq<char>)>,
    exprs: Seq<Seq<char>>,
) -> (Seq<(Seq<char>, Seq<char>)>, Result<(Seq<Seq<char>>, SplitV), Seq<char>>)
    decreases lines.len() - i,
{
    if i < 0 || i >= lines.len() {
        (defs, Ok((push_pending(exprs, current), SplitV::Done)))
    } else {
        let t = trim(lines[i]);
        if t.len() == 0 {
            split_spec(lines, i + 1, after_pending(current), defs, push_pending(exprs, current))
        } else if t[0] == '#' {
            split_spec(lines, i + 1, current, defs, exprs)
        } else {
            let u = trim(strip_comment_spec(t));
            if u.len() > 0 && u[0] == '@' {
                let name = trim(u.skip(1));
                if !ends_with(name, ".pl"@) {
                    (defs, Err("Include file must have .pl extension: "@ + name))
                } else {
                    (defs, Ok((push_pending(exprs, current), SplitV::Include(name, i + 1))))
                }
            } else if u.len() > 0 && u[0] == ':' {
                match parse_macro_spec(u) {
                    Err(e) => (defs, Err(e)),
                    Ok(d) => split_spec(lines, i + 1, current, defs.push(d), exprs),
                }
            } else if trim(current).len() > 0 {
                split_spec(lines, i + 1, current + " "@ + u, defs, exprs)
            } else {
                split_spec(lines, i + 1, current + u, defs, exprs)
            }
        }
    }
}

/// The outcome of splitting lines from which line `k` was deleted, told in
/// the numbering of the lines before the deletion: a line index past `k` to
/// resume at moves up by one.
pub open spec fn renumber_after_removal(
    r: Result<(Seq<Seq<char>>, SplitV), Seq<char>>,
    k: int,
) -> Result<(Seq<Seq<char>>, SplitV), Seq<char>> {
    match r {
        Ok((exprs, SplitV::Include(name, next))) => Ok(
            (exprs, SplitV::Include(name, if next <= k { next } else { next + 1 })),
        ),
        other => other,
    }
}

/// Whether `line` is a comment line: its first non-blank character is `#`.
pub open spec fn is_comment_line(line: Seq<char>) -> bool {
    trim(line).len() > 0 && trim(line)[0] == '#'
}

proof fn lemma_split_shifted(
    lines: Seq<Seq<char>>,
    k: int,
    j: int,
    current: Seq<char>,
    defs: Seq<(Seq<char>, Seq<char>)>,
    exprs: Seq<Seq<char>>,
)
    requires
        0 <= k < lines.len(),
        k <= j,
    ensures
        ({
            let fewer = lines.take(k) + lines.skip(k + 1);
            let r = split_spec(fewer, j, current, defs, exprs);
            split_spec(lines, j + 1, current, defs, exprs) == (r.0, renumber_after_removal(r.1, k))
        }),
    decreases lines.len() - j,
{
    let fewer = lines.take(k) + lines.skip(k + 1);
    assert(fewer.len() == lines.len() - 1);
    if j < fewer.len() {
        assert(fewer[j] == lines[j + 1]);
        let t = trim(fewer[j]);
        if t.len() == 0 {
            lemma_split_shifted(lines, k, j + 1, after_pending(current), defs, push_pending(exprs, current));
        } else if t[0] == '#' {
            lemma_split_shifted(lines, k, j + 1, current, defs, exprs);
        } else {
            let u = trim(strip_comment_spec(t));
            if u.len() > 0 && u[0] == '@' {
            } else if u.len() > 0 && u[0] == ':' {
                if let Ok(d) = parse_macro_spec(u) {
                    lemma_split_shifted(lines, k, j + 1, current, defs.push(d), exprs);
                }
            } else if trim(current).len() > 0 {
                lemma_split_shifted(lines, k, j + 1, current + " "@ + u, defs, exprs);
            } else {
                lemma_split_shifted(lines, k, j + 1, current + u, defs, exprs);
            }
        }
    }
}

proof fn lemma_split_without_comment_from(
    lines: Seq<Seq<char>>,
    k: int,
    i: int,
    current: Seq<char>,
    defs: Seq<(Seq<char>, Seq<char>)>,
    exprs: Seq<Seq<char>>,
)
    requires
        0 <= i <= k < lines.len(),
        is_comment_line(lines[k]),
    ensures
        ({
            let fewer = lines.take(k) + lines.skip(k + 1);
            let r = split_spec(fewer, i, current, defs, exprs);
            split_spec(lines, i, current, defs, exprs) == (r.0, renumber_after_removal(r.1, k))
        }),
    decreases k - i,
{
    let fewer = lines.take(k) + lines.skip(k + 1);
    if i == k {
        lemma_split_shifted(lines, k, k, current, defs, exprs);
    } else {
        assert(fewer[i] == lines[i]);
        let t = trim(lines[i]);
        if t.len() == 0 {
            lemma_split_without_comment_from(lines, k, i + 1, after_pending(current), defs, push_pending(exprs, current));
        } else if t[0] == '#' {
            lemma_split_without_comment_from(lines, k, i + 1, current, defs, exprs);
        } else {
            let u = trim(strip_comment_spec(t));
            if u.len() > 0 && u[0] == '@' {
            } else if u.len() > 0 && u[0] == ':' {
                if let Ok(d) = parse_macro_spec(u) {
                    lemma_split_without_comment_from(lines, k, i + 1, current, defs.push(d), exprs);
                }
            } else if trim(current).len() > 0 {
                lemma_split_without_comment_from(lines, k, i + 1, current + " "@ + u, defs, exprs);
            } else {
                lemma_split_without_comment_from(lines, k, i + 1, current + u, defs, exprs);
            }
        }
    }
}

/// Comment lines are transparent: deleting a line whose first non-blank
/// character is `#` leaves what splitting from line index `start` (at or
/// before it) gives unchanged (the macros, the expressions, the error), but
/// for the numbering of the line to resume at after an include. In
/// particular a comment line never ends the expression being accumulated.
pub proof fn lemma_comment_lines_transparent(
    lines: Seq<Seq<char>>,
    k: int,
    start: int,
    defs: Seq<(Seq<char>, Seq<char>)>,
)
    requires
        0 <= start <= k < lines.len(),
        is_comment_line(lines[k]),
    ensures
        ({
            let fewer = lines.take(k) + lines.skip(k + 1);
            let r = split_spec(fewer, start, Seq::empty(), defs, Seq::empty());
            split_spec(lines, start, Seq::empty(), defs, Seq::empty()) == (r.0, renumber_after_removal(r.1, k))
        }),
{
    lemma_split_without_comment_from(lines, k, start, Seq::empty(), defs, Seq::empty());
}


/// Whether `line` defines a macro (`:name body`) without error.
pub open spec fn is_macro_line(line: Seq<char>) -> bool {
    let t = trim(line);
    let u = trim(strip_comment_spec(t));
    &&& t.len() > 0
    &&& t[0] != '#'
    &&& u.len() > 0
    &&& u[0] == ':'
    &&& parse_macro_spec(u) is Ok
}

/// The expressions found, and where splitting stops, do not depend on the
/// macro definitions made before.
proof fn lemma_split_defs_irrelevant(
    lines: Seq<Seq<char>>,
    i: int,
    current: Seq<char>,
    d1: Seq<(Seq<char>, Seq<char>)>,
    d2: Seq<(Seq<char>, Seq<char>)>,
    exprs: Seq<Seq<char>>,
)
    ensures
        split_spec(lines, i, current, d1, exprs).1 == split_spec(lines, i, current, d2, exprs).1,
    decreases lines.len() - i,
{
    if 0 <= i < lines.len() {
        let t = trim(lines[i]);
        if t.len() == 0 {
            lemma_split_defs_irrelevant(lines, i + 1, after_pending(current), d1, d2, push_pending(exprs, current));
        } else if t[0] == '#' {
            lemma_split_defs_irrelevant(lines, i + 1, current, d1, d2, exprs);
        } else {
            let u = trim(strip_comment_spec(t));
            if u.len() > 0 && u[0] == '@' {
            } else if u.len() > 0 && u[0] == ':' {
                if let Ok(d) = parse_macro_spec(u) {
                    lemma_split_defs_irrelevant(lines, i + 1, current, d1.push(d), d2.push(d), exprs);
                }
            } else if trim(current).len() > 0 {
                lemma_split_defs_irrelevant(lines, i + 1, current + " "@ + u, d1, d2, exprs);
            } else {
                lemma_split_defs_irrelevant(lines, i + 1, current + u, d1, d2, exprs);
            }
        }
    }
}

proof fn lemma_split_without_macro_from(
    lines: Seq<Seq<char>>,
    k: int,
    i: int,
    current: Seq<char>,
    defs: Seq<(Seq<char>, Seq<char>)>,
    exprs: Seq<Seq<char>>,
)
    requires
        0 <= i <= k < lines.len(),
        is_macro_line(lines[k]),
    ensures
        split_spec(lines, i, current, defs, exprs).1 == renumber_after_removal(
            split_spec(lines.take(k) + lines.skip(k + 1), i, current, defs, exprs).1,
            k,
        ),
    decreases k - i,
{
    let fewer = lines.take(k) + lines.skip(k + 1);
    if i == k {
        let u = trim(strip_comment_spec(trim(lines[k])));
        let d = parse_macro_spec(u)->Ok_0;
        lemma_split_defs_irrelevant(lines, k + 1, current, defs.push(d), defs, exprs);
        lemma_split_shifted(lines, k, k, current, defs, exprs);
    } else {
        assert(fewer[i] == lines[i]);
        let t = trim(lines[i]);
        if t.len() == 0 {
            lemma_split_without_macro_from(lines, k, i + 1, after_pending(current), defs, push_pending(exprs, current));
        } else if t[0] == '#' {
            lemma_split_without_macro_from(lines, k, i + 1, current, defs, exprs);
        } else {
            let u = trim(strip_comment_spec(t));
            if u.len() > 0 && u[0] == '@' {
            } else if u.len() > 0 && u[0] == ':' {
                if let Ok(d) = parse_macro_spec(u) {
                    lemma_split_without_macro_from(lines, k, i + 1, current, defs.push(d), exprs);
                }
            } else if trim(current).len() > 0 {
                lemma_split_without_macro_from(lines, k, i + 1, current + " "@ + u, defs, exprs);
            } else {
                lemma_split_without_macro_from(lines, k, i + 1, current + u, defs, exprs);
            }
        }
    }
}

/// A macro definition line does not end the expression being accumulated:
/// deleting a line that defines a macro without error leaves the
/// expressions that splitting from line index `start` (at or before it)
/// finds, and the error, unchanged, but for the numbering of the line to
/// resume at after an include.
pub proof fn lemma_macro_lines_keep_expressions(
    lines: Seq<Seq<char>>,
    k: int,
    start: int,
    defs: Seq<(Seq<char>, Seq<char>)>,
)
    requires
        0 <= start <= k < lines.len(),
        is_macro_line(lines[k]),
    ensures
        split_spec(lines, start, Seq::empty(), defs, Seq::empty()).1 == renumber_after_removal(
            split_spec(lines.take(k) + lines.skip(k + 1), start, Seq::empty(), defs, Seq::empty()).1,
            k,
        ),
{
    lemma_split_without_macro_from(lines, k, start, Seq::empty(), defs, Seq::empty());
}

/// Text with a character that is not white space is not blank.
proof fn lemma_not_blank(s: Seq<char>, k: int)
    requires
        0 <= k < s.len(),
        !is_space_char(s[k]),
    ensures
        trim(s).len() > 0,
{
    lemma_skip_space_bounds(s, 0);
    lemma_trim_bounds(s);
    if skip_space(s, 0) >= s.len() {
        assert(is_space_char(s[k]));
    }
}

/// Trimmed text that is not empty starts with a character that is not white
/// space.
proof fn lemma_trimmed_start(s: Seq<char>)
    requires
        trim(s).len() > 0,
    ensures
        !is_space_char(trim(s)[0]),
        trim(trim(s)).len() > 0,
{
    lemma_skip_space_bounds(s, 0);
    lemma_trim_bounds(s);
    lemma_not_blank(trim(s), 0);
}

/// The pending text is empty or holds a character that is not white space.
pub open spec fn pending_ok(current: Seq<char>) -> bool {
    current.len() == 0 || trim(current).len() > 0
}

proof fn lemma_pending_join(current: Seq<char>, u: Seq<char>)
    requires
        trim(current).len() > 0,
    ensures
        pending_ok(current + " "@ + u),
{
    lemma_trimmed_start(current);
    lemma_skip_space_bounds(current, 0);
    let k = skip_space(current, 0);
    assert((current + " "@ + u)[k] == current[k]);
    lemma_not_blank(current + " "@ + u, k);
}

proof fn lemma_split_through_blank(
    lines: Seq<Seq<char>>,
    k: int,
    i: int,
    current: Seq<char>,
    defs: Seq<(Seq<char>, Seq<char>)>,
    exprs: Seq<Seq<char>>,
)
    requires
        0 <= i <= k < lines.len(),
        trim(lines[k]).len() == 0,
        pending_ok(current),
        split_spec(lines.take(k), i, current, defs, exprs).1 matches Ok((_, SplitV::Done)),
    ensures
        ({
            let before = split_spec(lines.take(k), i, current, defs, exprs);
            split_spec(lines, i, current, defs, exprs) == split_spec(
                lines,
                k + 1,
                Seq::empty(),
                before.0,
                before.1->Ok_0.0,
            )
        }),
    decreases k - i,
{
    let pre = lines.take(k);
    if i == k {
        assert(after_pending(current) == Seq::<char>::empty());
        assert(split_spec(pre, i, current, defs, exprs) == (defs, Ok::<(Seq<Seq<char>>, SplitV), Seq<char>>((push_pending(exprs, current), SplitV::Done))));
    } else {
        assert(pre[i] == lines[i]);
        let t = trim(lines[i]);
        if t.len() == 0 {
            lemma_split_through_blank(lines, k, i + 1, after_pending(current), defs, push_pending(exprs, current));
        } else if t[0] == '#' {
            lemma_split_through_blank(lines, k, i + 1, current, defs, exprs);
        } else {
            let u = trim(strip_comment_spec(t));
            if u.len() > 0 && u[0] == '@' {
            } else if u.len() > 0 && u[0] == ':' {
                if let Ok(d) = parse_macro_spec(u) {
                    lemma_split_through_blank(lines, k, i + 1, current, defs.push(d), exprs);
                }
            } else if trim(current).len() > 0 {
                lemma_pending_join(current, u);
                lemma_split_through_blank(lines, k, i + 1, current + " "@ + u, defs, exprs);
            } else {
                assert(current + u =~= u);
                if u.len() > 0 {
                    lemma_trimmed_start(strip_comment_spec(t));
                }
                lemma_split_through_blank(lines, k, i + 1, current + u, defs, exprs);
            }
        }
    }
}

/// A blank line ends the expression being accumulated. Where splitting the
/// lines before line index `k` from `start` runs to their end, and line `k`
/// is blank, splitting the whole file is: the macros and expressions that
/// the lines before `k` give, with their last expression closed, and then
/// splitting on from line `k + 1` with nothing pending; so no expression
/// joins text from both sides of a blank line.
pub proof fn lemma_blank_line_separates(
    lines: Seq<Seq<char>>,
    k: int,
    start: int,
    defs: Seq<(Seq<char>, Seq<char>)>,
)
    requires
        0 <= start <= k < lines.len(),
        trim(lines[k]).len() == 0,
        split_spec(lines.take(k), start, Seq::empty(), defs, Seq::empty()).1 matches Ok((_, SplitV::Done)),
    ensures
        ({
            let before = split_spec(lines.take(k), start, Seq::empty(), defs, Seq::empty());
            split_spec(lines, start, Seq::empty(), defs, Seq::empty()) == split_spec(
                lines,
                k + 1,
                Seq::empty(),
                before.0,
                before.1->Ok_0.0,
            )
        }),
{
    lemma_split_through_blank(lines, k, start, Seq::empty(), defs, Seq::empty());
}

/// Where splitting a file stopped.
#[derive(Debug)]
pub enum SplitStep {
    /// The end of the file was reached.
    Done,
    /// A line includes the file `name`; split it, then resume at line index
    /// `next`.
    Include { name: String, next: usize },
}

pub open spec fn split_step_view(s: SplitStep) -> SplitV {
    match s {
        SplitStep::Done => SplitV::Done,
        SplitStep::Include { name, next } => SplitV::Include(name@, next as int),
    }
}

pub open spec fn originals(v: Seq<ProcessedExpr>) -> Seq<Seq<char>> {
    v.map_values(|e: ProcessedExpr| e.original@)
}

/// Whether the text of `s` is blank.
fn is_blank(s: &String) -> (r: bool)
    ensures
        r == (trim(s@).len() == 0),
{
    let cs = chars_of(s.as_str());
    let (a, b) = trim_range(&cs, 0, cs.len());
    assert(cs@.subrange(0, cs@.len() as int) =~= cs@);
    a == b
}

impl Preprocessor {
    /// The macro definitions, in the order they were made.
    pub closed spec fn defs(&self) -> Seq<(Seq<char>, Seq<char>)> {
        defs_view(self.macros@)
    }

    /// The macros by name are the definitions, a later definition of a name
    /// replacing an earlier one.
    pub proof fn lemma_macros_spec(&self)
        ensures
            self.macros_spec() == macro_map(self.defs()),
    {
    }

    /// Parse a macro definition line like ":name body"
    #[verifier::rlimit(40)]
    pub fn parse_macro(&mut self, line: &str) -> (r: Result<(), String>)
        ensures
            final(self).paths() == old(self).paths(),
            match parse_macro_spec(line@) {
                Ok(d) => r is Ok && final(self).defs() == old(self).defs().push(d),
                Err(e) => r matches Err(m) && m@ == e && final(self).defs() == old(self).defs(),
            },
    {
        let cs = chars_of(line);
        let (a, b) = trim_range(&cs, 0, cs.len());
        assert(cs@.subrange(0, cs@.len() as int) =~= cs@);
        let ghost l = cs@.subrange(a as int, b as int);
        if a == b || cs[a] != ':' {
            return Err(string_of("Macro definition must start with ':'"));
        }
        let ghost content = l.skip(1);
        assert(cs@.subrange(a + 1, b as int) =~= content);
        let mut k = a + 1;
        proof {
            lemma_blank_start(content, 0);
        }
        while k < b && cs[k] != ' '
            invariant
                a < k <= b <= cs@.len(),
                content == cs@.subrange(a + 1, b as int),
                blank_start(content, 0) == blank_start(content, k - a - 1),
            decreases b - k,
        {
            k = k + 1;
        }
        proof {
            lemma_blank_start(content, k - a - 1);
        }
        if k >= b {
            return Err(string_of("Macro definition must have format: :name body"));
        }
        let (na, nb) = trim_range(&cs, a + 1, k);
        assert(cs@.subrange(a + 1, k as int) =~= content.take(k - a - 1));
        let (ba, bb) = trim_range(&cs, k + 1, b);
        assert(cs@.subrange(k + 1, b as int) =~= content.skip(k - a));
        if na == nb || ba == bb {
            return Err(string_of("Macro name and body cannot be empty"));
        }
        let name = string_from_range(&cs, na, nb);
        let body = string_from_range(&cs, ba, bb);
        let ghost d0 = self.defs();
        // Store raw body for lazy macro expansion during evaluation
        self.macros.push((name, body));
        assert(self.defs() =~= d0.push((name@, body@)));
        Ok(())
    }

    /// Split lines `start..` of a file into expressions, defining its macros,
    /// until its end or an include.
    pub fn split_lines(&mut self, lines: &Vec<String>, start: usize) -> (r: Result<
        (Vec<ProcessedExpr>, SplitStep),
        String,
    >)
        ensures
            final(self).paths() == old(self).paths(),
            final(self).defs() == split_spec(texts(lines@), start as int, Seq::empty(), old(self).defs(), Seq::empty()).0,
            match (r, split_spec(texts(lines@), start as int, Seq::empty(), old(self).defs(), Seq::empty()).1) {
                (Ok((es, s)), Ok((fs, t))) => originals(es@) == fs && split_step_view(s) == t,
                (Err(e), Err(f)) => e@ == f,
                _ => false,
            },
    {
        let ghost ls = texts(lines@);
        let mut exprs: Vec<ProcessedExpr> = Vec::new();
        let mut current = String::new();
        let mut i = start;
        assert(originals(exprs@) =~= Seq::<Seq<char>>::empty());
        while i < lines.len()
            invariant
                ls == texts(lines@),
                self.paths() == old(self).paths(),
                split_spec(ls, start as int, Seq::empty(), old(self).defs(), Seq::empty()) == split_spec(
                    ls,
                    i as int,
                    current@,
                    self.defs(),
                    originals(exprs@),
                ),
            decreases lines.len() - i,
        {
            assert(ls[i as int] == lines@[i as int]@);
            let cs = chars_of(lines[i].as_str());
            let (a, b) = trim_range(&cs, 0, cs.len());
            assert(cs@.subrange(0, cs@.len() as int) =~= cs@);
            let ghost t = cs@.subrange(a as int, b as int);
            // Skip empty lines
            if a == b {
                if !is_blank(&current) {
                    let ghost e0 = originals(exprs@);
                    let text = current.clone();
                    exprs.push(ProcessedExpr { original: text });
                    assert(originals(exprs@) =~= e0.push(current@));
                    current = String::new();
                }
                i = i + 1;
                continue;
            }
            assert(t[0] == cs@[a as int]);
            // Skip comment lines
            if cs[a] == '#' {
                i = i + 1;
                continue;
            }
            // A comment runs from `#` to the end of the line
            let line = string_from_range(&cs, a, b);
            let stripped = strip_comment(line.as_str());
            let cs = chars_of(stripped.as_str());
            let (a, b) = trim_range(&cs, 0, cs.len());
            assert(cs@.subrange(0, cs@.len() as int) =~= cs@);
            let ghost t = cs@.subrange(a as int, b as int);
            // Handle includes (@filename.pl)
            if a < b && cs[a] == '@' {
                assert(t[0] == cs@[a as int]);
                if !is_blank(&current) {
                    let ghost e0 = originals(exprs@);
                    let text = current.clone();
                    exprs.push(ProcessedExpr { original: text });
                    assert(originals(exprs@) =~= e0.push(current@));
                }
                let (c, d) = trim_range(&cs, a + 1, b);
                assert(cs@.subrange(a + 1, b as int) =~= t.skip(1));
                let name = string_from_range(&cs, c, d);
                if !has_pl_suffix(&cs, c, d) {
                    let mut e = string_of("Include file must have .pl extension: ");
                    append_string(&mut e, &name);
                    return Err(e);
                }
                return Ok((exprs, SplitStep::Include { name, next: i + 1 }));
            }
            // Handle macro definitions
            if a < b && cs[a] == ':' {
                let text = string_from_range(&cs, a, b);
                proof {
                    crate::text::lemma_trim_idempotent(t);
                }
                self.parse_macro(text.as_str())?;
                i = i + 1;
                continue;
            }
            // Accumulate expression lines
            let text = string_from_range(&cs, a, b);
            let ghost cur0 = current@;
            if !is_blank(&current) {
                push_char(&mut current, ' ');
                proof {
                    reveal_strlit(" ");
                }
                assert(cur0.push(' ') =~= cur0 + " "@);
            }
            append_string(&mut current, &text);
            i = i + 1;
        }
        // Add remaining expression
        if !is_blank(&current) {
            let ghost e0 = originals(exprs@);
            let text = current.clone();
            exprs.push(ProcessedExpr { original: text });
            assert(originals(exprs@) =~= e0.push(current@));
        }
        Ok((exprs, SplitStep::Done))
    }
}

} // verus!
