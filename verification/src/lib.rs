//! A small regular expression engine: a parser, an optimizer, a compiler into a state graph, and
//! a simulator that walks the graph over a subject string.

pub mod captures;
pub mod compile;
pub mod equivalence;
pub mod language;
pub mod matcher;
pub mod matching;
pub mod nesting;
pub mod notorious;
pub mod optimize;
pub mod parse;
pub mod reach;
pub mod repr;
pub mod soundness;
pub mod state;
pub mod text;

use crate::compile::{compilable, compiled, lemma_solid_compilable, solid, start_compile};
use crate::matching::{do_match, pairs_view, searched};
use crate::optimize::{lemma_optimized_solid, optimized};
use crate::parse::{parse_spec, ParseErrorView};
use crate::repr::{Pattern, PatternView};
use crate::soundness::{is_report, search_is_report, search_is_report_optimized};
use crate::state::{dot, dot_text, CompiledRE};
use crate::text::{append_str, char_at, chars_of, string_of};
use vstd::prelude::*;

verus! {

/// The characters of `s` from the index `from` on, at most `len` of them.
pub open spec fn substring_spec(s: Seq<char>, from: nat, len: nat) -> Seq<char> {
    if from >= s.len() {
        Seq::empty()
    } else if from + len >= s.len() {
        s.skip(from as int)
    } else {
        s.subrange(from as int, (from + len) as int)
    }
}

/// Easily take a substring from a pair of a first index and a length, both counted in
/// characters.
pub fn substring(s: &str, range: (usize, usize)) -> (r: String)
    ensures
        r@ == substring_spec(s@, range.0 as nat, range.1 as nat),
{
    let (from, len) = range;
    let src = chars_of(s);
    if from >= src.len() {
        return String::new();
    }
    let to = if len >= src.len() - from {
        src.len()
    } else {
        from + len
    };
    let mut out: Vec<char> = Vec::new();
    let mut i: usize = from;
    while i < to
        invariant
            from <= i <= to <= src@.len(),
            out@ == src@.subrange(from as int, i as int),
        decreases to - i,
    {
        out.push(char_at(src.as_slice(), i));
        i += 1;
        assert(out@ =~= src@.subrange(from as int, i as int));
    }
    assert(src@.subrange(from as int, src@.len() as int) =~= src@.skip(from as int));
    string_of(out.as_slice())
}

/// The graph of a regular expression as text for graphviz.
pub open spec fn render_spec(p: PatternView) -> Seq<char> {
    "digraph st { "@ + dot_text(compiled(p)) + " }"@
}

/// Render the state machine generated from `re` as graphviz `dot` input. The pattern is
/// compiled as it was parsed. The regular expression must have a pattern.
pub fn render_graph(re: &str) -> (r: String)
    requires
        parse_spec(re@) is Ok,
    ensures
        r@ == render_spec(parse_spec(re@)->Ok_0),
{
    match parse::parse(re) {
        Ok(p) => {
            proof {
                lemma_solid_compilable(p@);
            }
            let graph = start_compile(&p);
            let text = dot(&graph);
            let mut out: Vec<char> = Vec::new();
            append_str(&mut out, "digraph st { ");
            append_str(&mut out, text.as_str());
            append_str(&mut out, " }");
            string_of(out.as_slice())
        },
        Err(_) => String::new(),
    }
}

/// Translate a regular expression string into an unoptimized `Pattern`. This is useful for
/// inspecting (Pattern implements `Debug`) the parser output if there are unexpected effects.
pub fn parse(re: &str) -> (r: Result<Pattern, String>)
    ensures
        match r {
            Ok(p) => parse_spec(re@) == Ok::<PatternView, ParseErrorView>(p@) && solid(p@),
            Err(message) => parse_spec(re@) is Err && message@ == parse_spec(re@)->Err_0.render(),
        },
{
    parse::parse(re)
}

/// Compiles a parsed regular expression into the internal state graph and matches s against it.
/// Returns whether the string matched as well as a list of submatches. The first submatch is
/// the entire matched string. A submatch is a tuple of (start, end), where end is the index of
/// the first character that isn't part of the submatch anymore (i.e. [start, end)).
pub fn compile_and_match(re: &Pattern, s: &str) -> (r: (bool, Vec<(usize, usize)>))
    requires
        compilable(re@),
    ensures
        r.0 == searched(compiled(re@), s@, 0).0,
        pairs_view(r.1@) == searched(compiled(re@), s@, 0).1,
        is_report(re@, compiled(re@), s@, r.0, pairs_view(r.1@)),
{
    proof {
        search_is_report(re@, s@);
    }
    let graph = start_compile(re);
    do_match(&graph, s)
}

/// Parse, compile, and match a regular expression. Not recommended for repeated use, as the
/// regular expression will be compiled every time. Use `compile()` and `match_re()` to make
/// this more efficient.
///
/// The result is an error exactly where the regular expression has no pattern: it is the
/// error of the parser. Else it is a report on what the pattern of the regular expression
/// matches in `s`.
pub fn match_re_str(re: &str, s: &str) -> (r: Result<(bool, Vec<(usize, usize)>), String>)
    ensures
        match parse_spec(re@) {
            Err(e) => r is Err && r->Err_0@ == e.render(),
            Ok(p) => {
                &&& r is Ok
                &&& compilable(optimized(p))
                &&& r->Ok_0.0 == searched(compiled(optimized(p)), s@, 0).0
                &&& pairs_view(r->Ok_0.1@) == searched(compiled(optimized(p)), s@, 0).1
                &&& is_report(p, compiled(optimized(p)), s@, r->Ok_0.0, pairs_view(r->Ok_0.1@))
            },
        },
{
    let parsed = match parse::parse(re) {
        Ok(p) => p,
        Err(e) => {
            return Err(e);
        },
    };
    proof {
        lemma_optimized_solid(parsed@);
        lemma_solid_compilable(optimized(parsed@));
        search_is_report_optimized(parsed@, s@);
    }
    let p = optimize::optimize(parsed);
    Ok(compile_and_match(&p, s))
}

/// Optimize and compile a regular expression into a representation that can be directly used
/// for matching with `match_re()`.
///
/// The result is an error exactly where the regular expression has no pattern: it is the
/// error of the parser.
pub fn compile(re: &str) -> (r: Result<CompiledRE, String>)
    ensures
        match parse_spec(re@) {
            Err(e) => r is Err && r->Err_0@ == e.render(),
            Ok(p) => r is Ok && compilable(optimized(p)) && r->Ok_0@ == compiled(optimized(p)),
        },
{
    let parsed = match parse(re) {
        Ok(p) => p,
        Err(e) => {
            return Err(e);
        },
    };
    proof {
        lemma_optimized_solid(parsed@);
        lemma_solid_compilable(optimized(parsed@));
    }
    let p = optimize::optimize(parsed);
    Ok(CompiledRE::new(start_compile(&p)))
}

/// Match a regular expression compiled with `compile()` against a string. Returns a tuple of a
/// boolean (whether there was a match or partial match) and a vector of `(start, end)` tuples
/// for all submatches, where the first element describes the match by the whole regular
/// expression.
pub fn match_re(re: &CompiledRE, s: &str) -> (r: (bool, Vec<(usize, usize)>))
    ensures
        r.0 == searched(re@, s@, 0).0,
        pairs_view(r.1@) == searched(re@, s@, 0).1,
{
    do_match(re.graph(), s)
}

} // verus!
