//! Rewriting a pattern into a simpler one that matches the same subjects: adjacent characters
//! and strings become one string, and nested alternations become one alternation.

use crate::compile::solid;
use crate::equivalence::optimize_keeps_matches;
use crate::language::pattern_matches;
use crate::repr::{views, Pattern, PatternView, Repetition, RepetitionView};
use crate::text::{append_chars, char_at, chars_of, string_of};
use vstd::prelude::*;

verus! {

/// The pattern for a run of characters: nothing for none, a character for one, a string for
/// more.
pub open spec fn flush(run: Seq<char>) -> Seq<PatternView> {
    if run.len() == 0 {
        Seq::empty()
    } else if run.len() == 1 {
        seq![PatternView::Char(run[0])]
    } else {
        seq![PatternView::Str(run)]
    }
}

/// The elements `ps` of a sequence with every run of adjacent characters and strings merged
/// into one element. `run` holds the characters of the run that precedes `ps`.
pub open spec fn fuse(ps: Seq<PatternView>, run: Seq<char>) -> Seq<PatternView>
    decreases ps.len(),
{
    if ps.len() == 0 {
        flush(run)
    } else {
        match ps[0] {
            PatternView::Char(c) => fuse(ps.skip(1), run.push(c)),
            PatternView::Str(s) => fuse(ps.skip(1), run + s),
            other => flush(run) + seq![other] + fuse(ps.skip(1), Seq::empty()),
        }
    }
}

/// A sequence with its runs of characters and strings merged; if one element is left, that
/// element. Any other pattern is left as it is.
pub open spec fn concat_chars(p: PatternView) -> PatternView {
    match p {
        PatternView::Concat(ps) => {
            let fused = fuse(ps, Seq::empty());
            if fused.len() == 1 {
                fused[0]
            } else {
                PatternView::Concat(fused)
            }
        },
        _ => p,
    }
}

/// The alternatives that a pattern offers: those of its alternatives, if it is an alternation,
/// and itself otherwise.
pub open spec fn alternatives(p: PatternView) -> Seq<PatternView>
    decreases p, 0nat,
{
    match p {
        PatternView::Alternate(ps) => alternatives_of(ps, ps.len()),
        _ => seq![p],
    }
}

/// The alternatives that the first `n` elements of `ps` offer, in order.
pub open spec fn alternatives_of(ps: Seq<PatternView>, n: nat) -> Seq<PatternView>
    decreases ps, n,
{
    if n == 0 || n > ps.len() {
        Seq::empty()
    } else {
        alternatives_of(ps, (n - 1) as nat) + alternatives(ps[n - 1])
    }
}

/// An alternation without alternations among its alternatives; if one alternative is left, that
/// alternative. Any other pattern is left as it is.
pub open spec fn flatten(p: PatternView) -> PatternView {
    let all = alternatives(p);
    if all.len() == 1 {
        all[0]
    } else {
        PatternView::Alternate(all)
    }
}

/// The pattern with each of its direct sub-patterns optimized.
pub open spec fn optimized_children(p: PatternView) -> PatternView
    decreases p, 0nat,
{
    match p {
        PatternView::Concat(ps) => PatternView::Concat(
            Seq::new(
                ps.len(),
                |i: int|
                    if 0 <= i < ps.len() {
                        optimized(ps[i])
                    } else {
                        PatternView::Any
                    },
            ),
        ),
        PatternView::Alternate(ps) => PatternView::Alternate(
            Seq::new(
                ps.len(),
                |i: int|
                    if 0 <= i < ps.len() {
                        optimized(ps[i])
                    } else {
                        PatternView::Any
                    },
            ),
        ),
        PatternView::Submatch(q) => PatternView::Submatch(Box::new(optimized(*q))),
        PatternView::Repeated(r) => PatternView::Repeated(
            Box::new(
                match *r {
                    RepetitionView::ZeroOrOnce(q) => RepetitionView::ZeroOrOnce(optimized(q)),
                    RepetitionView::ZeroOrMore(q) => RepetitionView::ZeroOrMore(optimized(q)),
                    RepetitionView::OnceOrMore(q) => RepetitionView::OnceOrMore(optimized(q)),
                    RepetitionView::Specific(q, min, max) => RepetitionView::Specific(
                        optimized(q),
                        min,
                        max,
                    ),
                },
            ),
        ),
        _ => p,
    }
}

/// The optimized pattern: the sub-patterns first, then the pattern itself.
pub open spec fn optimized(p: PatternView) -> PatternView
    decreases p, 1nat,
{
    flatten(concat_chars(optimized_children(p)))
}

/// Optimizes a pattern from its leaves up: in every sequence, adjacent characters and strings
/// become one string, and in every alternation the alternatives of a nested alternation take
/// its place. A sequence or an alternation that is left with one element is that element. The
/// optimized pattern matches what the pattern matches, and can be compiled if the pattern is
/// solid.
pub fn optimize(p: Pattern) -> (r: Pattern)
    ensures
        r@ == optimized(p@),
        normal(r@),
        solid(p@) ==> solid(r@),
        forall|s: Seq<char>, from: nat, to: nat| #[trigger]
            pattern_matches(r@, s, from, to) == pattern_matches(p@, s, from, to),
    decreases p, 1nat,
{
    proof {
        lemma_optimized_normal(p@);
        if solid(p@) {
            lemma_optimized_solid(p@);
        }
        assert forall|s: Seq<char>, from: nat, to: nat| #[trigger]
            pattern_matches(optimized(p@), s, from, to) == pattern_matches(p@, s, from, to) by {
            optimize_keeps_matches(p@, s, from, to);
        }
    }
    let p = optimize_recursively(p);
    let p = concat_chars_to_str(p);
    let p = flatten_alternate(p);
    p
}

/// optimize_recursively applies optimize() to the inner Patterns of a Pattern.
pub fn optimize_recursively(p: Pattern) -> (r: Pattern)
    ensures
        r@ == optimized_children(p@),
    decreases p, 0nat,
{
    proof {
        reveal_with_fuel(Pattern::model, 2);
    }
    match p {
        Pattern::Concat(ps) => {
            let ghost all = ps@;
            let mut out: Vec<Pattern> = Vec::new();
            for child in it: ps
                invariant
                    it.seq() == all,
                    p is Concat,
                    p->Concat_0@ == all,
                    out@.len() == it.index(),
                    forall|j: int| 0 <= j < out@.len() ==> out@[j]@ == optimized(all[j]@),
            {
                out.push(optimize(child));
            }
            proof {
                Pattern::lemma_concat_view(out);
                Pattern::lemma_concat_view(ps);
                assert(views(out@) =~= optimized_children(p@)->Concat_0);
            }
            Pattern::Concat(out)
        },
        Pattern::Alternate(ps) => {
            let ghost all = ps@;
            let mut out: Vec<Pattern> = Vec::new();
            for child in it: ps
                invariant
                    it.seq() == all,
                    p is Alternate,
                    p->Alternate_0@ == all,
                    out@.len() == it.index(),
                    forall|j: int| 0 <= j < out@.len() ==> out@[j]@ == optimized(all[j]@),
            {
                out.push(optimize(child));
            }
            proof {
                Pattern::lemma_concat_view(out);
                Pattern::lemma_concat_view(ps);
                assert(views(out@) =~= optimized_children(p@)->Alternate_0);
            }
            Pattern::Alternate(out)
        },
        Pattern::Submatch(bp) => Pattern::Submatch(Box::new(optimize(*bp))),
        Pattern::Repeated(r) => Pattern::Repeated(
            Box::new(
                match *r {
                    Repetition::ZeroOrOnce(rp) => Repetition::ZeroOrOnce(optimize(rp)),
                    Repetition::ZeroOrMore(rp) => Repetition::ZeroOrMore(optimize(rp)),
                    Repetition::OnceOrMore(rp) => Repetition::OnceOrMore(optimize(rp)),
                    Repetition::Specific(rp, min, max) => Repetition::Specific(
                        optimize(rp),
                        min,
                        max,
                    ),
                },
            ),
        ),
        p => p,
    }
}

/// Moves the run of characters in `chars` to the end of `out` as one pattern, if there is one.
fn flush_run(out: &mut Vec<Pattern>, chars: &mut Vec<char>)
    ensures
        views(final(out)@) == views(old(out)@) + flush(old(chars)@),
        final(chars)@ == Seq::<char>::empty(),
{
    if chars.len() == 1 {
        let c = char_at(chars.as_slice(), 0);
        out.push(Pattern::Char(c));
    } else if chars.len() > 1 {
        out.push(Pattern::Str(string_of(chars.as_slice())));
    }
    chars.clear();
    assert(views(out@) =~= views(old(out)@) + flush(old(chars)@));
}

/// concat_chars_to_str collapses successive single-character and string patterns of a sequence
/// into a single string pattern.
pub fn concat_chars_to_str(p: Pattern) -> (r: Pattern)
    ensures
        r@ == concat_chars(p@),
{
    match p {
        Pattern::Concat(v) => {
            let ghost elems = v@;
            let ghost all = views(v@);
            proof {
                Pattern::lemma_concat_view(v);
            }
            let mut new_elems: Vec<Pattern> = Vec::new();
            // Find runs of adjacent chars/strings and convert them to single strings.
            // Once a run is broken, append non-char/string patterns and continue afterwards.
            let mut chars: Vec<char> = Vec::new();
            proof {
                assert(all.skip(0) =~= all);
                assert(chars@ =~= Seq::<char>::empty());
                assert(views(new_elems@) + fuse(all, Seq::empty()) =~= fuse(all, Seq::empty()));
            }
            for cp in it: v
                invariant
                    it.seq() == elems,
                    all == views(elems),
                    fuse(all, Seq::empty()) == views(new_elems@) + fuse(
                        all.skip(it.index()),
                        chars@,
                    ),
            {
                let ghost rest = all.skip(it.index());
                let ghost merged = views(new_elems@);
                let ghost run = chars@;
                assert(rest[0] == cp@);
                assert(rest.skip(1) =~= all.skip(it.index() + 1));
                match cp {
                    Pattern::Char(c) => {
                        chars.push(c);
                    },
                    Pattern::Str(s) => {
                        let cs = chars_of(s.as_str());
                        append_chars(&mut chars, cs.as_slice());
                    },
                    e => {
                        // Once a run of chars/strings is broken, merge the run, push the
                        // non-char/string pattern and continue with the next one.
                        flush_run(&mut new_elems, &mut chars);
                        let ghost flushed = views(new_elems@);
                        new_elems.push(e);
                        proof {
                            assert(views(new_elems@) =~= flushed.push(e@));
                            assert(views(new_elems@) + fuse(rest.skip(1), Seq::empty()) =~= merged
                                + (flush(run) + seq![e@] + fuse(rest.skip(1), Seq::empty())));
                        }
                    },
                }
            }
            assert(all.skip(all.len() as int) =~= Seq::<PatternView>::empty());
            flush_run(&mut new_elems, &mut chars);
            if new_elems.len() == 1 {
                new_elems.pop().unwrap()
            } else {
                proof {
                    Pattern::lemma_concat_view(new_elems);
                }
                Pattern::Concat(new_elems)
            }
        },
        _ => p,
    }
}

/// The alternatives that a pattern offers, nested alternations taken apart.
pub fn flatten_alternatives(p: Pattern) -> (r: Vec<Pattern>)
    ensures
        views(r@) == alternatives(p@),
    decreases p,
{
    match p {
        Pattern::Alternate(a) => {
            let ghost elems = a@;
            proof {
                Pattern::lemma_concat_view(a);
            }
            let mut found: Vec<Pattern> = Vec::new();
            assert(views(found@) =~= alternatives_of(views(elems), 0));
            for alt in it: a
                invariant
                    it.seq() == elems,
                    p is Alternate,
                    p->Alternate_0@ == elems,
                    views(found@) == alternatives_of(views(elems), it.index() as nat),
            {
                let ghost before = views(found@);
                let mut more = flatten_alternatives(alt);
                let ghost added = views(more@);
                found.append(&mut more);
                assert(views(found@) =~= before + added);
            }
            found
        },
        other => {
            let mut only: Vec<Pattern> = Vec::new();
            let ghost value = other@;
            only.push(other);
            assert(views(only@) =~= seq![value]);
            only
        },
    }
}

/// flatten_alternate takes the alternatives in a Pattern::Alternate and reduces the nesting
/// recursively.
pub fn flatten_alternate(p: Pattern) -> (r: Pattern)
    ensures
        r@ == flatten(p@),
{
    let mut fa = flatten_alternatives(p);
    if fa.len() == 1 {
        fa.pop().unwrap()
    } else {
        proof {
            Pattern::lemma_concat_view(fa);
        }
        Pattern::Alternate(fa)
    }
}

/// A character or a string.
pub open spec fn is_literal(p: PatternView) -> bool {
    p is Char || p is Str
}

/// No two neighbours among `ps` are both literals, and every string among them has at least two
/// characters.
pub open spec fn fused_list(ps: Seq<PatternView>) -> bool {
    &&& forall|i: int|
        0 <= i < ps.len() - 1 ==> !(is_literal(#[trigger] ps[i]) && is_literal(ps[i + 1]))
    &&& forall|i: int|
        0 <= i < ps.len() ==> ((#[trigger] ps[i]) is Str ==> ps[i]->Str_0.len() >= 2)
}

/// None of `ps` is an alternation.
pub open spec fn no_alternate(ps: Seq<PatternView>) -> bool {
    forall|i: int| 0 <= i < ps.len() ==> !((#[trigger] ps[i]) is Alternate)
}

/// The pattern under a repetition.
pub open spec fn repeated_pattern(r: RepetitionView) -> PatternView {
    match r {
        RepetitionView::ZeroOrOnce(q) => q,
        RepetitionView::ZeroOrMore(q) => q,
        RepetitionView::OnceOrMore(q) => q,
        RepetitionView::Specific(q, _, _) => q,
    }
}

/// The shape of an optimized pattern, at every depth: no sequence and no alternation has
/// exactly one element; in a sequence no two neighbours are both characters or strings, and a
/// string has at least two characters; no alternative of an alternation is an alternation.
pub open spec fn normal(p: PatternView) -> bool
    decreases p,
{
    match p {
        PatternView::Concat(ps) => {
            &&& ps.len() != 1
            &&& fused_list(ps)
            &&& forall|i: int| 0 <= i < ps.len() ==> normal(#[trigger] ps[i])
        },
        PatternView::Alternate(ps) => {
            &&& ps.len() != 1
            &&& no_alternate(ps)
            &&& forall|i: int| 0 <= i < ps.len() ==> normal(#[trigger] ps[i])
        },
        PatternView::Submatch(q) => normal(*q),
        PatternView::Repeated(r) => normal(repeated_pattern(*r)),
        _ => true,
    }
}

proof fn lemma_flush_one(c: char)
    ensures
        flush(seq![c]) == seq![PatternView::Char(c)],
        flush(seq![c]).len() == 1,
        flush(seq![c])[0] == PatternView::Char(c),
{
}

proof fn lemma_flush_shape(run: Seq<char>)
    ensures
        flush(run).len() <= 1,
        fused_list(flush(run)),
        forall|i: int| 0 <= i < flush(run).len() ==> is_literal(#[trigger] flush(run)[i]),
        forall|i: int| 0 <= i < flush(run).len() ==> normal(#[trigger] flush(run)[i]),
{
    if run.len() == 1 {
        lemma_flush_one(run[0]);
        assert(seq![run[0]] =~= run);
    }
}

proof fn lemma_fuse_shape(ps: Seq<PatternView>, run: Seq<char>)
    requires
        forall|i: int| 0 <= i < ps.len() ==> normal(#[trigger] ps[i]),
    ensures
        fused_list(fuse(ps, run)),
        forall|i: int| 0 <= i < fuse(ps, run).len() ==> normal(#[trigger] fuse(ps, run)[i]),
    decreases ps.len(),
{
    let f = fuse(ps, run);
    lemma_flush_shape(run);
    if ps.len() == 0 {
        assert(f == flush(run));
    } else {
        let rest = ps.skip(1);
        assert forall|i: int| 0 <= i < rest.len() implies normal(#[trigger] rest[i]) by {
            assert(rest[i] == ps[i + 1]);
        }
        match ps[0] {
            PatternView::Char(c) => {
                lemma_fuse_shape(rest, run.push(c));
                assert(f == fuse(rest, run.push(c)));
            },
            PatternView::Str(s) => {
                lemma_fuse_shape(rest, run + s);
                assert(f == fuse(rest, run + s));
            },
            other => {
                lemma_fuse_shape(rest, Seq::empty());
                let head = flush(run);
                let tail = fuse(rest, Seq::empty());
                let a = head.len() as int;
                assert(f == head + seq![other] + tail);
                assert(f[a] == other);
                assert(other == ps[0]);
                assert(normal(ps[0]));
                assert(!is_literal(other));
                assert forall|i: int| 0 <= i < f.len() implies normal(#[trigger] f[i]) by {
                    if i > a {
                        assert(f[i] == tail[i - a - 1]);
                    } else if i < a {
                        assert(f[i] == head[i]);
                    }
                }
                assert forall|i: int| 0 <= i < f.len() - 1 implies !(is_literal(#[trigger] f[i])
                    && is_literal(f[i + 1])) by {
                    if i > a {
                        assert(f[i] == tail[i - a - 1]);
                        assert(f[i + 1] == tail[i - a - 1 + 1]);
                    } else if i == a {
                    } else {
                        assert(i + 1 == a);
                    }
                }
                assert forall|i: int| 0 <= i < f.len() implies ((#[trigger] f[i]) is Str
                    ==> f[i]->Str_0.len() >= 2) by {
                    if i > a {
                        assert(f[i] == tail[i - a - 1]);
                    } else if i < a {
                        assert(f[i] == head[i]);
                    }
                }
            },
        }
    }
}

proof fn lemma_alternatives_of_plain(ps: Seq<PatternView>, n: nat)
    requires
        no_alternate(ps),
        n <= ps.len(),
    ensures
        alternatives_of(ps, n) == ps.take(n as int),
    decreases n,
{
    if n > 0 {
        lemma_alternatives_of_plain(ps, (n - 1) as nat);
        assert(!(ps[n - 1] is Alternate));
        assert(alternatives(ps[n - 1]) == seq![ps[n - 1]]);
        assert(ps.take(n as int) =~= ps.take(n - 1) + seq![ps[n - 1]]);
    } else {
        assert(ps.take(0) =~= Seq::<PatternView>::empty());
    }
}

/// Flattening leaves a pattern of the optimized shape as it is.
proof fn lemma_flatten_normal(p: PatternView)
    requires
        normal(p),
    ensures
        flatten(p) == p,
{
    match p {
        PatternView::Alternate(ps) => {
            lemma_alternatives_of_plain(ps, ps.len());
            assert(ps.take(ps.len() as int) =~= ps);
        },
        _ => {},
    }
}

proof fn lemma_alternatives_of_shape(ps: Seq<PatternView>, n: nat)
    requires
        n <= ps.len(),
        forall|i: int| 0 <= i < ps.len() ==> normal(#[trigger] ps[i]),
    ensures
        no_alternate(alternatives_of(ps, n)),
        forall|i: int|
            0 <= i < alternatives_of(ps, n).len() ==> normal(#[trigger] alternatives_of(ps, n)[i]),
    decreases n,
{
    if n > 0 {
        lemma_alternatives_of_shape(ps, (n - 1) as nat);
        let before = alternatives_of(ps, (n - 1) as nat);
        let last = ps[n - 1];
        let added = alternatives(last);
        assert(normal(last));
        match last {
            PatternView::Alternate(qs) => {
                lemma_alternatives_of_plain(qs, qs.len());
                assert(qs.take(qs.len() as int) =~= qs);
                assert(added == qs);
            },
            _ => {
                assert(added == seq![last]);
            },
        }
        let all = alternatives_of(ps, n);
        assert(all == before + added);
        assert forall|i: int| 0 <= i < all.len() implies !((#[trigger] all[i]) is Alternate)
            && normal(all[i]) by {
            if i >= before.len() {
                assert(all[i] == added[i - before.len()]);
            } else {
                assert(all[i] == before[i]);
            }
        }
    }
}

/// Every optimized pattern has the optimized shape.
pub proof fn lemma_optimized_normal(p: PatternView)
    ensures
        normal(optimized(p)),
    decreases p,
{
    let oc = optimized_children(p);
    match p {
        PatternView::Concat(ps) => {
            let cs = oc->Concat_0;
            assert forall|i: int| 0 <= i < cs.len() implies normal(#[trigger] cs[i]) by {
                lemma_optimized_normal(ps[i]);
            }
            lemma_fuse_shape(cs, Seq::empty());
            lemma_flatten_normal(concat_chars(oc));
        },
        PatternView::Alternate(ps) => {
            let cs = oc->Alternate_0;
            assert forall|i: int| 0 <= i < cs.len() implies normal(#[trigger] cs[i]) by {
                lemma_optimized_normal(ps[i]);
            }
            lemma_alternatives_of_shape(cs, cs.len());
        },
        PatternView::Submatch(q) => {
            lemma_optimized_normal(*q);
        },
        PatternView::Repeated(r) => {
            lemma_optimized_normal(repeated_pattern(*r));
        },
        _ => {},
    }
}

proof fn lemma_fuse_fixed(ps: Seq<PatternView>)
    requires
        fused_list(ps),
    ensures
        fuse(ps, Seq::empty()) == ps,
    decreases ps.len(),
{
    if ps.len() == 0 {
        assert(fuse(ps, Seq::empty()) =~= ps);
    } else {
        let rest = ps.skip(1);
        assert(fused_list(rest)) by {
            assert forall|i: int| 0 <= i < rest.len() - 1 implies !(is_literal(#[trigger] rest[i])
                && is_literal(rest[i + 1])) by {
                assert(rest[i] == ps[i + 1]);
                assert(rest[i + 1] == ps[i + 1 + 1]);
            }
            assert forall|i: int| 0 <= i < rest.len() implies ((#[trigger] rest[i]) is Str
                ==> rest[i]->Str_0.len() >= 2) by {
                assert(rest[i] == ps[i + 1]);
            }
        }
        if is_literal(ps[0]) {
            let run: Seq<char> = match ps[0] {
                PatternView::Char(c) => Seq::<char>::empty().push(c),
                PatternView::Str(s) => Seq::<char>::empty() + s,
                _ => Seq::empty(),
            };
            assert(fuse(ps, Seq::empty()) == fuse(rest, run));
            assert(flush(run) =~= seq![ps[0]]) by {
                match ps[0] {
                    PatternView::Char(c) => {
                        assert(run.len() == 1);
                        assert(run[0] == c);
                    },
                    PatternView::Str(s) => {
                        assert(run =~= s);
                    },
                    _ => {},
                }
            }
            if rest.len() == 0 {
                assert(fuse(rest, run) =~= ps);
            } else {
                assert(rest[0] == ps[1]);
                assert(!is_literal(rest[0]));
                let rest2 = rest.skip(1);
                assert(fused_list(rest2)) by {
                    assert forall|i: int| 0 <= i < rest2.len() - 1 implies !(is_literal(
                        #[trigger] rest2[i],
                    ) && is_literal(rest2[i + 1])) by {
                        assert(rest2[i] == rest[i + 1]);
                        assert(rest2[i + 1] == rest[i + 1 + 1]);
                    }
                    assert forall|i: int| 0 <= i < rest2.len() implies ((#[trigger] rest2[i]) is Str
                        ==> rest2[i]->Str_0.len() >= 2) by {
                        assert(rest2[i] == rest[i + 1]);
                    }
                }
                lemma_fuse_fixed(rest2);
                assert(fuse(rest, run) == flush(run) + seq![rest[0]] + fuse(
                    rest2,
                    Seq::empty(),
                ));
                assert(fuse(rest, run) =~= ps);
            }
        } else {
            lemma_fuse_fixed(rest);
            assert(flush(Seq::<char>::empty()) =~= Seq::<PatternView>::empty());
            assert(fuse(ps, Seq::empty()) =~= ps);
        }
    }
}

/// Optimizing leaves a pattern of the optimized shape as it is.
pub proof fn lemma_normal_fixed(p: PatternView)
    requires
        normal(p),
    ensures
        optimized(p) == p,
    decreases p,
{
    let oc = optimized_children(p);
    match p {
        PatternView::Concat(ps) => {
            let cs = oc->Concat_0;
            assert forall|i: int| 0 <= i < cs.len() implies cs[i] == ps[i] by {
                lemma_normal_fixed(ps[i]);
            }
            assert(cs =~= ps);
            lemma_fuse_fixed(ps);
            lemma_flatten_normal(p);
        },
        PatternView::Alternate(ps) => {
            let cs = oc->Alternate_0;
            assert forall|i: int| 0 <= i < cs.len() implies cs[i] == ps[i] by {
                lemma_normal_fixed(ps[i]);
            }
            assert(cs =~= ps);
            lemma_flatten_normal(p);
        },
        PatternView::Submatch(q) => {
            lemma_normal_fixed(*q);
        },
        PatternView::Repeated(r) => {
            lemma_normal_fixed(repeated_pattern(*r));
        },
        _ => {},
    }
}

/// Optimizing is idempotent: an optimized pattern is its own optimization.
pub proof fn optimize_idempotent(p: PatternView)
    ensures
        optimized(optimized(p)) == optimized(p),
{
    lemma_optimized_normal(p);
    lemma_normal_fixed(optimized(p));
}


/// No sequence of the pattern, at any depth, has a sequence among its elements.
pub open spec fn flat_sequences(p: PatternView) -> bool
    decreases p,
{
    match p {
        PatternView::Concat(ps) => forall|i: int|
            0 <= i < ps.len() ==> !((#[trigger] ps[i]) is Concat) && flat_sequences(ps[i]),
        PatternView::Alternate(ps) => forall|i: int|
            0 <= i < ps.len() ==> flat_sequences(#[trigger] ps[i]),
        PatternView::Submatch(q) => flat_sequences(*q),
        PatternView::Repeated(r) => flat_sequences(repeated_pattern(*r)),
        _ => true,
    }
}

/// The pattern, at any depth, has no sequence directly among the elements of a sequence, and
/// every alternation has at least two alternatives.
pub open spec fn plain(p: PatternView) -> bool
    decreases p,
{
    match p {
        PatternView::Concat(ps) => forall|i: int|
            0 <= i < ps.len() ==> !((#[trigger] ps[i]) is Concat) && plain(ps[i]),
        PatternView::Alternate(ps) => ps.len() >= 2 && forall|i: int|
            0 <= i < ps.len() ==> plain(#[trigger] ps[i]),
        PatternView::Submatch(q) => plain(*q),
        PatternView::Repeated(r) => plain(repeated_pattern(*r)),
        _ => true,
    }
}

/// Every element of a merged sequence is a character, a string, or one of the elements that
/// were merged.
proof fn lemma_fuse_elements(ps: Seq<PatternView>, run: Seq<char>)
    ensures
        forall|j: int|
            0 <= j < fuse(ps, run).len() ==> is_literal(#[trigger] fuse(ps, run)[j]) || exists|
                i: int,
            |
                0 <= i < ps.len() && ps[i] == fuse(ps, run)[j],
    decreases ps.len(),
{
    let f = fuse(ps, run);
    lemma_flush_shape(run);
    if ps.len() == 0 {
    } else {
        let rest = ps.skip(1);
        match ps[0] {
            PatternView::Char(c) => {
                lemma_fuse_elements(rest, run.push(c));
                let inner = fuse(rest, run.push(c));
                assert forall|j: int| 0 <= j < f.len() implies is_literal(#[trigger] f[j])
                    || exists|i: int| 0 <= i < ps.len() && ps[i] == f[j] by {
                    if !is_literal(inner[j]) {
                        let i = choose|i: int| 0 <= i < rest.len() && rest[i] == inner[j];
                        assert(ps[i + 1] == f[j]);
                    }
                }
            },
            PatternView::Str(s) => {
                lemma_fuse_elements(rest, run + s);
                let inner = fuse(rest, run + s);
                assert forall|j: int| 0 <= j < f.len() implies is_literal(#[trigger] f[j])
                    || exists|i: int| 0 <= i < ps.len() && ps[i] == f[j] by {
                    if !is_literal(inner[j]) {
                        let i = choose|i: int| 0 <= i < rest.len() && rest[i] == inner[j];
                        assert(ps[i + 1] == f[j]);
                    }
                }
            },
            other => {
                lemma_fuse_elements(rest, Seq::empty());
                let head = flush(run);
                let tail = fuse(rest, Seq::empty());
                let a = head.len() as int;
                assert(f == head + seq![other] + tail);
                assert forall|j: int| 0 <= j < f.len() implies is_literal(#[trigger] f[j])
                    || exists|i: int| 0 <= i < ps.len() && ps[i] == f[j] by {
                    if j < a {
                        assert(f[j] == head[j]);
                    } else if j == a {
                        assert(ps[0] == f[j]);
                    } else {
                        assert(f[j] == tail[j - a - 1]);
                        if !is_literal(tail[j - a - 1]) {
                            let i = choose|i: int|
                                0 <= i < rest.len() && rest[i] == tail[j - a - 1];
                            assert(ps[i + 1] == f[j]);
                        }
                    }
                }
            },
        }
    }
}

/// What optimizing keeps of a plain pattern.
proof fn lemma_optimized_flat(p: PatternView)
    requires
        plain(p),
    ensures
        flat_sequences(optimized(p)),
        !(p is Concat) ==> !(optimized(p) is Concat),
        optimized(p) is Alternate ==> optimized(p)->Alternate_0.len() >= 2,
    decreases p,
{
    let oc = optimized_children(p);
    lemma_optimized_normal(p);
    match p {
        PatternView::Concat(ps) => {
            let cs = oc->Concat_0;
            assert forall|i: int| 0 <= i < cs.len() implies !((#[trigger] cs[i]) is Concat)
                && flat_sequences(cs[i]) && (cs[i] is Alternate ==> cs[i]->Alternate_0.len()
                >= 2) by {
                assert(!(ps[i] is Concat));
                lemma_optimized_flat(ps[i]);
            }
            let fused = fuse(cs, Seq::empty());
            lemma_fuse_elements(cs, Seq::empty());
            assert forall|j: int| 0 <= j < fused.len() implies !((#[trigger] fused[j]) is Concat)
                && flat_sequences(fused[j]) && (fused[j] is Alternate
                ==> fused[j]->Alternate_0.len() >= 2) by {
                if !is_literal(fused[j]) {
                    let i = choose|i: int| 0 <= i < cs.len() && cs[i] == fused[j];
                    assert(!(cs[i] is Concat));
                }
            }
            assert forall|i: int| 0 <= i < cs.len() implies normal(#[trigger] cs[i]) by {
                lemma_optimized_normal(ps[i]);
            }
            lemma_fuse_shape(cs, Seq::empty());
            lemma_flatten_normal(concat_chars(oc));
        },
        PatternView::Alternate(ps) => {
            let cs = oc->Alternate_0;
            assert forall|i: int| 0 <= i < cs.len() implies normal(#[trigger] cs[i])
                && flat_sequences(cs[i]) && (cs[i] is Alternate ==> cs[i]->Alternate_0.len()
                >= 2) by {
                lemma_optimized_normal(ps[i]);
                lemma_optimized_flat(ps[i]);
            }
            lemma_alternatives_flat(cs, cs.len());
        },
        PatternView::Submatch(q) => {
            lemma_optimized_flat(*q);
        },
        PatternView::Repeated(r) => {
            lemma_optimized_flat(repeated_pattern(*r));
        },
        _ => {},
    }
}

/// The alternatives that optimized patterns offer are as many as the patterns or more, and
/// keep their shape.
proof fn lemma_alternatives_flat(cs: Seq<PatternView>, n: nat)
    requires
        n <= cs.len(),
        forall|i: int|
            0 <= i < cs.len() ==> normal(#[trigger] cs[i]) && flat_sequences(cs[i]) && (
            cs[i] is Alternate ==> cs[i]->Alternate_0.len() >= 2),
    ensures
        alternatives_of(cs, n).len() >= n,
        forall|j: int|
            0 <= j < alternatives_of(cs, n).len() ==> flat_sequences(
                #[trigger] alternatives_of(cs, n)[j],
            ),
    decreases n,
{
    if n > 0 {
        lemma_alternatives_flat(cs, (n - 1) as nat);
        let before = alternatives_of(cs, (n - 1) as nat);
        let last = cs[n - 1];
        let added = alternatives(last);
        assert(normal(last));
        match last {
            PatternView::Alternate(qs) => {
                lemma_alternatives_of_plain(qs, qs.len());
                assert(qs.take(qs.len() as int) =~= qs);
                assert(added == qs);
                assert forall|j: int| 0 <= j < added.len() implies flat_sequences(
                    #[trigger] added[j],
                ) by {
                    assert(flat_sequences(last));
                }
            },
            _ => {
                assert(added == seq![last]);
            },
        }
        let all = alternatives_of(cs, n);
        assert(all == before + added);
        assert forall|j: int| 0 <= j < all.len() implies flat_sequences(#[trigger] all[j]) by {
            if j >= before.len() {
                assert(all[j] == added[j - before.len()]);
            } else {
                assert(all[j] == before[j]);
            }
        }
    }
}

/// In the optimization of a plain pattern, no sequence has a sequence among its elements. The
/// optimizer merges characters and strings and takes nested alternations apart; it does not
/// take nested sequences apart, so the pattern must not have a sequence directly in a
/// sequence, nor an alternation of fewer than two alternatives, which would stand for its only
/// alternative.
pub proof fn optimize_keeps_sequences_flat(p: PatternView)
    requires
        plain(p),
    ensures
        flat_sequences(optimized(p)),
{
    lemma_optimized_flat(p);
}

/// A merged sequence of solid patterns has solid elements, and it has an element if there was
/// a pattern or a character to merge.
proof fn lemma_fuse_solid(ps: Seq<PatternView>, run: Seq<char>)
    requires
        forall|i: int| 0 <= i < ps.len() ==> solid(#[trigger] ps[i]),
    ensures
        forall|j: int| 0 <= j < fuse(ps, run).len() ==> solid(#[trigger] fuse(ps, run)[j]),
        ps.len() > 0 || run.len() > 0 ==> fuse(ps, run).len() > 0,
    decreases ps.len(),
{
    let f = fuse(ps, run);
    lemma_flush_shape(run);
    let head = flush(run);
    if run.len() == 1 {
        lemma_flush_one(run[0]);
        assert(seq![run[0]] =~= run);
        lemma_char_is_solid(run[0]);
    }
    assert forall|j: int| 0 <= j < head.len() implies solid(#[trigger] head[j]) by {}
    assert(run.len() > 0 ==> head.len() > 0);
    if ps.len() == 0 {
    } else {
        let rest = ps.skip(1);
        assert forall|i: int| 0 <= i < rest.len() implies solid(#[trigger] rest[i]) by {
            assert(rest[i] == ps[i + 1]);
        }
        assert(solid(ps[0]));
        match ps[0] {
            PatternView::Char(c) => {
                lemma_fuse_solid(rest, run.push(c));
            },
            PatternView::Str(chars) => {
                lemma_fuse_solid(rest, run + chars);
            },
            other => {
                lemma_fuse_solid(rest, Seq::empty());
                let tail = fuse(rest, Seq::empty());
                let a = head.len() as int;
                assert(f == head + seq![other] + tail);
                assert forall|j: int| 0 <= j < f.len() implies solid(#[trigger] f[j]) by {
                    if j < a {
                        assert(f[j] == head[j]);
                    } else if j > a {
                        assert(f[j] == tail[j - a - 1]);
                    }
                }
            },
        }
    }
}

proof fn lemma_char_is_solid(c: char)
    ensures
        solid(PatternView::Char(c)),
        solid(flush(seq![c])[0]),
{
}

/// The alternatives that solid patterns offer are solid.
proof fn lemma_alternatives_solid(cs: Seq<PatternView>, n: nat)
    requires
        n <= cs.len(),
        forall|i: int| 0 <= i < cs.len() ==> solid(#[trigger] cs[i]),
    ensures
        forall|j: int|
            0 <= j < alternatives_of(cs, n).len() ==> solid(#[trigger] alternatives_of(cs, n)[j]),
    decreases cs, n,
{
    if n > 0 {
        lemma_alternatives_solid(cs, (n - 1) as nat);
        let before = alternatives_of(cs, (n - 1) as nat);
        let last = cs[n - 1];
        let added = alternatives(last);
        assert(solid(last));
        match last {
            PatternView::Alternate(qs) => {
                assert forall|i: int| 0 <= i < qs.len() implies solid(#[trigger] qs[i]) by {}
                lemma_alternatives_solid(qs, qs.len());
                assert(added == alternatives_of(qs, qs.len()));
            },
            _ => {
                assert(added == seq![last]);
            },
        }
        assert forall|j: int| 0 <= j < added.len() implies solid(#[trigger] added[j]) by {}
        let all = alternatives_of(cs, n);
        assert(all == before + added);
        assert forall|j: int| 0 <= j < all.len() implies solid(#[trigger] all[j]) by {
            if j >= before.len() {
                assert(all[j] == added[j - before.len()]);
            } else {
                assert(all[j] == before[j]);
            }
        }
    }
}

/// Optimizing keeps a solid pattern solid: the optimized pattern can be compiled.
pub proof fn lemma_optimized_solid(p: PatternView)
    requires
        solid(p),
    ensures
        solid(optimized(p)),
    decreases p,
{
    let oc = optimized_children(p);
    lemma_optimized_normal(p);
    match p {
        PatternView::Concat(ps) => {
            let cs = oc->Concat_0;
            assert forall|i: int| 0 <= i < cs.len() implies solid(#[trigger] cs[i]) && normal(
                cs[i],
            ) by {
                assert(solid(ps[i]));
                lemma_optimized_solid(ps[i]);
                lemma_optimized_normal(ps[i]);
            }
            lemma_fuse_solid(cs, Seq::empty());
            lemma_fuse_shape(cs, Seq::empty());
            let fused = fuse(cs, Seq::empty());
            if fused.len() != 1 {
                assert(solid(PatternView::Concat(fused)));
            }
            lemma_flatten_normal(concat_chars(oc));
        },
        PatternView::Alternate(ps) => {
            let cs = oc->Alternate_0;
            assert forall|i: int| 0 <= i < cs.len() implies solid(#[trigger] cs[i]) by {
                assert(solid(ps[i]));
                lemma_optimized_solid(ps[i]);
            }
            lemma_alternatives_solid(cs, cs.len());
            let all = alternatives_of(cs, cs.len());
            if all.len() != 1 {
                assert(solid(PatternView::Alternate(all)));
            }
        },
        PatternView::Submatch(q) => {
            lemma_optimized_solid(*q);
        },
        PatternView::Repeated(r) => {
            match *r {
                RepetitionView::ZeroOrOnce(q) => {
                    lemma_optimized_solid(q);
                },
                RepetitionView::ZeroOrMore(q) => {
                    lemma_optimized_solid(q);
                },
                RepetitionView::OnceOrMore(q) => {
                    lemma_optimized_solid(q);
                },
                RepetitionView::Specific(q, min, max) => {
                    lemma_optimized_solid(q);
                },
            }
        },
        _ => {},
    }
}

/// An element of a sequence or an alternative of an alternation.
pub open spec fn element(i: int) -> bool {
    true
}

/// One of the patterns keeps a nested sequence when it is optimized.
pub open spec fn any_nests(ps: Seq<PatternView>) -> bool
    decreases ps, 1nat,
{
    exists|i: int| #[trigger] element(i) && 0 <= i < ps.len() && nests(ps[i])
}

/// The pattern keeps a nested sequence when it is optimized: somewhere in it a sequence that
/// is still a sequence after its runs of characters and strings were merged has an element
/// whose optimization is a sequence.
pub open spec fn nests(p: PatternView) -> bool
    decreases p, 0nat,
{
    match p {
        PatternView::Concat(ps) => any_nests(ps) || (fuse(
            optimized_children(p)->Concat_0,
            Seq::empty(),
        ).len() != 1 && exists|i: int|
            #[trigger] element(i) && 0 <= i < ps.len() && optimized(ps[i]) is Concat),
        PatternView::Alternate(ps) => any_nests(ps),
        PatternView::Submatch(q) => nests(*q),
        PatternView::Repeated(r) => nests(repeated_pattern(*r)),
        _ => false,
    }
}

/// Every pattern that is no character and no string is kept when a sequence is merged.
proof fn lemma_fuse_keeps(ps: Seq<PatternView>, run: Seq<char>, i: int)
    requires
        0 <= i < ps.len(),
        !is_literal(ps[i]),
    ensures
        exists|j: int| 0 <= j < fuse(ps, run).len() && #[trigger] fuse(ps, run)[j] == ps[i],
    decreases ps.len(),
{
    let f = fuse(ps, run);
    let rest = ps.skip(1);
    match ps[0] {
        PatternView::Char(c) => {
            assert(rest[i - 1] == ps[i]);
            lemma_fuse_keeps(rest, run.push(c), i - 1);
        },
        PatternView::Str(chars) => {
            assert(rest[i - 1] == ps[i]);
            lemma_fuse_keeps(rest, run + chars, i - 1);
        },
        other => {
            let head = flush(run);
            let tail = fuse(rest, Seq::empty());
            let a = head.len() as int;
            assert(f == head + seq![other] + tail);
            if i == 0 {
                assert(f[a] == ps[0]);
            } else {
                assert(rest[i - 1] == ps[i]);
                lemma_fuse_keeps(rest, Seq::empty(), i - 1);
                let j = choose|j: int| 0 <= j < tail.len() && #[trigger] tail[j] == ps[i];
                assert(f[a + 1 + j] == tail[j]);
            }
        },
    }
}

/// All alternatives that the first `n` of some optimized patterns offer have flat sequences
/// exactly if all of these patterns have.
proof fn lemma_alternatives_flat_iff(cs: Seq<PatternView>, n: nat)
    requires
        n <= cs.len(),
        forall|i: int| 0 <= i < cs.len() ==> normal(#[trigger] cs[i]),
    ensures
        (forall|j: int|
            0 <= j < alternatives_of(cs, n).len() ==> flat_sequences(
                #[trigger] alternatives_of(cs, n)[j],
            )) == (forall|i: int| 0 <= i < n ==> flat_sequences(#[trigger] cs[i])),
    decreases n,
{
    if n > 0 {
        lemma_alternatives_flat_iff(cs, (n - 1) as nat);
        let before = alternatives_of(cs, (n - 1) as nat);
        let last = cs[n - 1];
        let added = alternatives(last);
        let all = alternatives_of(cs, n);
        assert(all == before + added);
        assert(normal(last));
        // The alternatives of the last pattern are flat exactly if the pattern is.
        let added_flat = forall|j: int| 0 <= j < added.len() ==> flat_sequences(#[trigger] added[j]);
        match last {
            PatternView::Alternate(qs) => {
                lemma_alternatives_of_plain(qs, qs.len());
                assert(qs.take(qs.len() as int) =~= qs);
                assert(added == qs);
                assert(added_flat == flat_sequences(last));
            },
            _ => {
                assert(added == seq![last]);
                if flat_sequences(last) {
                    assert forall|j: int| 0 <= j < added.len() implies flat_sequences(
                        #[trigger] added[j],
                    ) by {}
                } else {
                    assert(!flat_sequences(added[0]));
                }
                assert(added_flat == flat_sequences(last));
            },
        }
        let all_flat = forall|j: int| 0 <= j < all.len() ==> flat_sequences(#[trigger] all[j]);
        let before_flat = forall|j: int|
            0 <= j < before.len() ==> flat_sequences(#[trigger] before[j]);
        if all_flat {
            assert forall|j: int| 0 <= j < before.len() implies flat_sequences(
                #[trigger] before[j],
            ) by {
                assert(all[j] == before[j]);
            }
            assert forall|j: int| 0 <= j < added.len() implies flat_sequences(
                #[trigger] added[j],
            ) by {
                assert(all[before.len() + j] == added[j]);
            }
        }
        if before_flat && added_flat {
            assert forall|j: int| 0 <= j < all.len() implies flat_sequences(#[trigger] all[j]) by {
                if j >= before.len() {
                    assert(all[j] == added[j - before.len()]);
                } else {
                    assert(all[j] == before[j]);
                }
            }
        }
        assert(all_flat == (before_flat && added_flat));
        let first_flat = forall|i: int| 0 <= i < n - 1 ==> flat_sequences(#[trigger] cs[i]);
        let these_flat = forall|i: int| 0 <= i < n ==> flat_sequences(#[trigger] cs[i]);
        if these_flat {
            assert(flat_sequences(cs[n - 1]));
        }
        if first_flat && flat_sequences(last) {
            assert forall|i: int| 0 <= i < n implies flat_sequences(#[trigger] cs[i]) by {}
        }
        assert(these_flat == (first_flat && flat_sequences(last)));
    }
}

/// When the optimized pattern keeps a nested sequence. No sequence of the optimized pattern has
/// a sequence among its elements, unless the pattern nests: the optimizer merges characters and
/// strings and takes nested alternations apart, but it leaves a sequence in a sequence where
/// the outer one does not shrink to its only element.
pub proof fn optimize_nests_exactly(p: PatternView)
    ensures
        flat_sequences(optimized(p)) == !nests(p),
    decreases p,
{
    let oc = optimized_children(p);
    lemma_optimized_normal(p);
    match p {
        PatternView::Concat(ps) => {
            let cs = oc->Concat_0;
            assert forall|i: int| 0 <= i < cs.len() implies normal(#[trigger] cs[i])
                && flat_sequences(cs[i]) == !nests(ps[i]) by {
                lemma_optimized_normal(ps[i]);
                optimize_nests_exactly(ps[i]);
            }
            let fused = fuse(cs, Seq::empty());
            lemma_fuse_elements(cs, Seq::empty());
            lemma_fuse_shape(cs, Seq::empty());
            lemma_flatten_normal(concat_chars(oc));
            let result = optimized(p);
            let some_sequence = exists|i: int|
                #[trigger] element(i) && 0 <= i < ps.len() && optimized(ps[i]) is Concat;
            if any_nests(ps) {
                let i = choose|i: int| #[trigger] element(i) && 0 <= i < ps.len() && nests(ps[i]);
                assert(!flat_sequences(cs[i]));
                lemma_fuse_keeps(cs, Seq::empty(), i);
                let j = choose|j: int| 0 <= j < fused.len() && #[trigger] fused[j] == cs[i];
                assert(!flat_sequences(fused[j]));
                assert(!flat_sequences(result));
            }
            if fused.len() != 1 && some_sequence {
                let i = choose|i: int|
                    #[trigger] element(i) && 0 <= i < ps.len() && optimized(ps[i]) is Concat;
                assert(cs[i] is Concat);
                lemma_fuse_keeps(cs, Seq::empty(), i);
                let j = choose|j: int| 0 <= j < fused.len() && #[trigger] fused[j] == cs[i];
                assert(fused[j] is Concat);
                assert(!flat_sequences(result));
            }
            if !nests(p) {
                assert forall|j: int| 0 <= j < fused.len() implies flat_sequences(
                    #[trigger] fused[j],
                ) && (fused.len() != 1 ==> !(fused[j] is Concat)) by {
                    if !is_literal(fused[j]) {
                        let i = choose|i: int| 0 <= i < cs.len() && cs[i] == fused[j];
                        assert(element(i));
                        assert(!nests(ps[i]));
                        assert(flat_sequences(cs[i]));
                        if fused.len() != 1 {
                            assert(!(optimized(ps[i]) is Concat));
                        }
                    }
                }
                assert(flat_sequences(result));
            }
        },
        PatternView::Alternate(ps) => {
            let cs = oc->Alternate_0;
            assert forall|i: int| 0 <= i < cs.len() implies normal(#[trigger] cs[i])
                && flat_sequences(cs[i]) == !nests(ps[i]) by {
                lemma_optimized_normal(ps[i]);
                optimize_nests_exactly(ps[i]);
            }
            lemma_alternatives_flat_iff(cs, cs.len());
            let all = alternatives_of(cs, cs.len());
            let all_flat = forall|j: int| 0 <= j < all.len() ==> flat_sequences(#[trigger] all[j]);
            let result = optimized(p);
            if all_flat {
                if all.len() == 1 {
                    assert(flat_sequences(all[0]));
                }
                assert(flat_sequences(result));
            }
            if flat_sequences(result) {
                if all.len() == 1 {
                    assert forall|j: int| 0 <= j < all.len() implies flat_sequences(
                        #[trigger] all[j],
                    ) by {}
                }
                assert(all_flat);
            }
            if any_nests(ps) {
                let i = choose|i: int| #[trigger] element(i) && 0 <= i < ps.len() && nests(ps[i]);
                assert(!flat_sequences(cs[i]));
            }
            if !any_nests(ps) {
                assert forall|i: int| 0 <= i < cs.len() implies flat_sequences(
                    #[trigger] cs[i],
                ) by {
                    assert(element(i));
                    assert(!nests(ps[i]));
                }
            }
        },
        PatternView::Submatch(q) => {
            optimize_nests_exactly(*q);
        },
        PatternView::Repeated(r) => {
            optimize_nests_exactly(repeated_pattern(*r));
        },
        _ => {},
    }
}

} // verus!
