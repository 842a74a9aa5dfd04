//! A pattern that is notorious for the time that an engine takes which follows every path on
//! its own: `(x+x+)+y`. This engine schedules no place twice in a pass, so the rounds of a pass
//! are bounded by the places; and it finds the match wherever there is one.

use crate::compile::{compilable, compiled, lemma_solid_compilable, solid};
use crate::equivalence::optimize_keeps_matches;
use crate::language::{
    cut, kind_matches, matches_times, pattern_matches, repetition_matches, sequence_matches,
    times,
};
use crate::matcher::MatcherKind;
use crate::matching::{begun, pass_from, pass_rounds_bounded, rounds, seed};
use crate::optimize::{lemma_optimized_solid, optimized};
use crate::repr::{PatternView, RepetitionView};
use crate::soundness::pass_matches_pattern;
use vstd::prelude::*;

verus! {

/// The pattern of `x+`.
pub open spec fn some_x() -> PatternView {
    PatternView::Repeated(Box::new(RepetitionView::OnceOrMore(PatternView::Char('x'))))
}

/// The pattern of `x+x+`.
pub open spec fn two_runs() -> PatternView {
    PatternView::Concat(seq![some_x(), some_x()])
}

/// The pattern of `(x+x+)+`.
pub open spec fn groups() -> PatternView {
    PatternView::Repeated(
        Box::new(RepetitionView::OnceOrMore(PatternView::Submatch(Box::new(two_runs())))),
    )
}

/// The pattern of `(x+x+)+y`.
pub open spec fn notorious() -> PatternView {
    PatternView::Concat(seq![groups(), PatternView::Char('y')])
}

/// The subject of `k` times `x` and then one `y`.
pub open spec fn notorious_subject(k: nat) -> Seq<char> {
    Seq::new(k, |i: int| 'x').push('y')
}

/// `x` matches `j` times in a row where `j` times `x` stands.
proof fn lemma_x_times(s: Seq<char>, j: nat, from: nat)
    requires
        from + j <= s.len(),
        forall|i: int| from <= i < from + j ==> s[i] == 'x',
    ensures
        matches_times(PatternView::Char('x'), j, s, from, from + j),
    decreases j,
{
    if j > 0 {
        lemma_x_times(s, (j - 1) as nat, from);
        let mid = (from + j - 1) as nat;
        assert(s[mid as int] == 'x');
        assert(kind_matches(MatcherKind::Char('x'), s, mid, from + j));
        assert(pattern_matches(PatternView::Char('x'), s, mid, from + j));
        assert(cut(mid) && matches_times(PatternView::Char('x'), (j - 1) as nat, s, from, mid)
            && pattern_matches(PatternView::Char('x'), s, mid, from + j));
    }
}

/// `x+` matches where one `x` or more stand.
proof fn lemma_some_x(s: Seq<char>, j: nat, from: nat)
    requires
        j >= 1,
        from + j <= s.len(),
        forall|i: int| from <= i < from + j ==> s[i] == 'x',
    ensures
        pattern_matches(some_x(), s, from, from + j),
{
    lemma_x_times(s, j, from);
    let r = RepetitionView::OnceOrMore(PatternView::Char('x'));
    assert(times(j) && j >= 1 && matches_times(PatternView::Char('x'), j, s, from, from + j));
    assert(repetition_matches(r, s, from, from + j));
}

/// The notorious pattern matches its subject from the begin to the end, if the subject has two
/// `x` or more.
pub proof fn lemma_notorious_matches(k: nat)
    requires
        k >= 2,
    ensures
        pattern_matches(notorious(), notorious_subject(k), 0, k + 1),
{
    let s = notorious_subject(k);
    assert(s.len() == k + 1);
    assert forall|i: int| 0 <= i < k implies s[i] == 'x' by {}
    assert(s[k as int] == 'y');
    // The first run takes one `x`, the second run the others.
    lemma_some_x(s, 1, 0);
    lemma_some_x(s, (k - 1) as nat, 1);
    let runs = seq![some_x(), some_x()];
    assert(sequence_matches(runs, 0, s, 0, 0));
    assert(cut(0) && sequence_matches(runs, 0, s, 0, 0) && pattern_matches(runs[0], s, 0, 1));
    assert(sequence_matches(runs, 1, s, 0, 1));
    assert(cut(1) && sequence_matches(runs, 1, s, 0, 1) && pattern_matches(runs[1], s, 1, k));
    assert(sequence_matches(runs, 2, s, 0, k));
    assert(pattern_matches(two_runs(), s, 0, k));
    let group = PatternView::Submatch(Box::new(two_runs()));
    assert(pattern_matches(group, s, 0, k));
    // The group is taken once.
    assert(matches_times(group, 0, s, 0, 0));
    assert(cut(0) && matches_times(group, 0, s, 0, 0) && pattern_matches(group, s, 0, k));
    assert(matches_times(group, 1, s, 0, k));
    assert(times(1) && 1 >= 1 && matches_times(group, 1, s, 0, k));
    assert(repetition_matches(RepetitionView::OnceOrMore(group), s, 0, k));
    assert(pattern_matches(groups(), s, 0, k));
    // Then comes the `y`.
    assert(kind_matches(MatcherKind::Char('y'), s, k, k + 1));
    assert(pattern_matches(PatternView::Char('y'), s, k, k + 1));
    let whole = seq![groups(), PatternView::Char('y')];
    assert(sequence_matches(whole, 0, s, 0, 0));
    assert(cut(0) && sequence_matches(whole, 0, s, 0, 0) && pattern_matches(whole[0], s, 0, k));
    assert(sequence_matches(whole, 1, s, 0, k));
    assert(cut(k) && sequence_matches(whole, 1, s, 0, k) && pattern_matches(
        whole[1],
        s,
        k,
        k + 1,
    ));
    assert(sequence_matches(whole, 2, s, 0, k + 1));
}

/// The notorious pattern is solid.
proof fn lemma_notorious_solid()
    ensures
        solid(notorious()),
{
    let x = PatternView::Char('x');
    assert(solid(x));
    assert(solid(some_x()));
    let runs = seq![some_x(), some_x()];
    assert forall|i: int| 0 <= i < runs.len() implies solid(#[trigger] runs[i]) by {}
    assert(solid(two_runs()));
    assert(solid(PatternView::Submatch(Box::new(two_runs()))));
    assert(solid(groups()));
    let whole = seq![groups(), PatternView::Char('y')];
    assert(solid(PatternView::Char('y')));
    assert forall|i: int| 0 <= i < whole.len() implies solid(#[trigger] whole[i]) by {}
}

/// What the engine does with the notorious pattern. On a subject of `k` times `x` and one `y`,
/// with two `x` or more, the pass from the begin over the graph of the optimized pattern finds
/// the match of the whole subject, and it takes no more rounds than there are pairs of a
/// position and a state: the number of rounds grows with `k`, not with the number of paths.
pub proof fn notorious_is_matched(k: nat)
    requires
        k >= 2,
    ensures
        ({
            let s = notorious_subject(k);
            let g = compiled(optimized(notorious()));
            let pass = pass_from(g, s, seed(s.len(), 0));
            &&& compilable(optimized(notorious()))
            &&& pass.matched
            &&& pass.longest == k + 1
            &&& rounds(g, s, begun(g, s, seed(s.len(), 0)), seq![seed(s.len(), 0)]) <= (k + 2)
                * g.len()
        }),
{
    let s = notorious_subject(k);
    let o = optimized(notorious());
    let g = compiled(o);
    lemma_notorious_solid();
    lemma_optimized_solid(notorious());
    lemma_solid_compilable(o);
    lemma_notorious_matches(k);
    optimize_keeps_matches(notorious(), s, 0, k + 1);
    pass_matches_pattern(o, s, 0);
    let pass = pass_from(g, s, seed(s.len(), 0));
    crate::language::lemma_matches_bounds(o, s, 0, pass.longest);
    crate::compile::lemma_compiled_bracketed(o);
    pass_rounds_bounded(g, s, seed(s.len(), 0));
}

} // verus!
