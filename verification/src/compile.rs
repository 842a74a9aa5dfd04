//! The compiler: it takes a `Pattern` and builds the `StateGraph` that accepts it. It is
//! recommended to optimize Patterns before compiling them.
//!
//! Every construct of a pattern becomes a fragment of the graph: some states appended to the
//! graph, one of which is the entry, and a list of loose ends, states that still lack the
//! successor which the construct that follows will give them.
//!
//! `start_compile()` is the entry point of this module.

use crate::language::{graph_accepts_matches, pattern_matches};
use crate::matcher::{
    wrap_matcher, AnchorMatcher, AnyMatcher, CharMatcher, CharRangeMatcher, CharSetMatcher,
    Matcher, MatcherKind, StringMatcher, WrappedMatcher,
};
use crate::reach::{accepts_to, Place};
use crate::repr::{views, AnchorLocation, Pattern, PatternView, Repetition, RepetitionView};
use crate::soundness::graph_accepts_only_matches;
use crate::state::{
    closed_state, graph_view, refs_view, well_formed, State, StateGraph, StateRef, StateView,
    Submatch,
};
use vstd::prelude::*;

verus! {

/// A part of a graph that stands for a pattern.
pub struct Fragment {
    /// The whole graph, the states of the fragment included.
    pub graph: Seq<StateView>,
    /// The state at which the fragment is entered.
    pub entry: nat,
    /// The states of the fragment that wait for a successor.
    pub loose: Seq<nat>,
}

/// A state that applies a matcher and has no successor yet.
pub open spec fn matcher_state(kind: MatcherKind) -> StateView {
    StateView { out: None, out1: None, matcher: Some(kind), sub: None }
}

/// A state without a matcher.
pub open spec fn empty_state(out: Option<nat>, out1: Option<nat>, sub: Option<Submatch>)
    -> StateView {
    StateView { out, out1, matcher: None, sub }
}

/// The graph in which each of the states `loose` has got `next` as a successor.
pub open spec fn patch_all(g: Seq<StateView>, loose: Seq<nat>, next: nat) -> Seq<StateView> {
    Seq::new(
        g.len(),
        |k: int|
            if loose.contains(k as nat) {
                g[k].patched(next)
            } else {
                g[k]
            },
    )
}

/// One state with a matcher: it is the entry and the only loose end.
pub open spec fn single(g: Seq<StateView>, kind: MatcherKind) -> Fragment {
    Fragment { graph: g.push(matcher_state(kind)), entry: g.len(), loose: seq![g.len()] }
}

/// One state without a matcher: it is the entry and the only loose end, and consumes nothing.
pub open spec fn nothing(g: Seq<StateView>) -> Fragment {
    Fragment { graph: g.push(empty_state(None, None, None)), entry: g.len(), loose: seq![g.len()] }
}

/// The matcher that accepts no character.
pub open spec fn never() -> MatcherKind {
    MatcherKind::CharSet(Seq::empty())
}

/// The fragment `f` between a state that starts a submatch and one that ends it.
pub open spec fn submatch_of(f: Fragment) -> Fragment {
    let before = f.graph.len();
    let after = before + 1;
    Fragment {
        graph: patch_all(
            f.graph.push(empty_state(Some(f.entry), None, Some(Submatch::Start))).push(
                empty_state(None, None, Some(Submatch::End)),
            ),
            f.loose,
            after,
        ),
        entry: before,
        loose: seq![after],
    }
}

/// The fragment `f` or nothing: a fork either enters `f` or goes past it.
pub open spec fn zero_or_once_of(f: Fragment) -> Fragment {
    let after = f.graph.len();
    let before = after + 1;
    Fragment {
        graph: patch_all(
            f.graph.push(empty_state(None, None, None)).push(
                empty_state(Some(f.entry), Some(after), None),
            ),
            f.loose,
            after,
        ),
        entry: before,
        loose: seq![after],
    }
}

/// The fragment `f` any number of times: a fork either enters `f` or goes past it, and the
/// state after `f` leads back into it.
pub open spec fn zero_or_more_of(f: Fragment) -> Fragment {
    let before = f.graph.len();
    let after = before + 1;
    Fragment {
        graph: patch_all(
            f.graph.push(empty_state(Some(f.entry), Some(after), None)).push(
                empty_state(Some(f.entry), None, None),
            ),
            f.loose,
            after,
        ),
        entry: before,
        loose: seq![after],
    }
}

/// The fragment `f` once or more: the state after `f` leads back into it.
pub open spec fn once_or_more_of(f: Fragment) -> Fragment {
    let after = f.graph.len();
    Fragment {
        graph: patch_all(f.graph.push(empty_state(Some(f.entry), None, None)), f.loose, after),
        entry: f.entry,
        loose: seq![after],
    }
}

/// The fragment `first` followed by the fragment `second`, which was built onto its graph: the
/// loose ends of the first lead to the entry of the second.
pub open spec fn joined(first: Fragment, second: Fragment) -> Fragment {
    Fragment {
        graph: patch_all(second.graph, first.loose, second.entry),
        entry: first.entry,
        loose: second.loose,
    }
}

/// The choice between the fragment `left` and the fragment `right`, which was built onto its
/// graph: a fork leads to both entries, and the loose ends of both stay loose.
pub open spec fn forked(left: Fragment, right: Fragment) -> Fragment {
    Fragment {
        graph: right.graph.push(empty_state(Some(left.entry), Some(right.entry), None)),
        entry: right.graph.len(),
        loose: left.loose + right.loose,
    }
}

/// A pattern that can be compiled: every sequence has an element, and the upper limit of a
/// counted repetition, if it has one, is no less than its lower limit.
pub open spec fn compilable(p: PatternView) -> bool
    decreases p,
{
    match p {
        PatternView::Concat(ps) => ps.len() > 0 && forall|i: int|
            0 <= i < ps.len() ==> compilable(#[trigger] ps[i]),
        PatternView::Alternate(ps) => forall|i: int|
            0 <= i < ps.len() ==> compilable(#[trigger] ps[i]),
        PatternView::Submatch(q) => compilable(*q),
        PatternView::Repeated(r) => match *r {
            RepetitionView::ZeroOrOnce(q) => compilable(q),
            RepetitionView::ZeroOrMore(q) => compilable(q),
            RepetitionView::OnceOrMore(q) => compilable(q),
            RepetitionView::Specific(q, min, max) => compilable(q) && match max {
                Some(m) => min <= m,
                None => true,
            },
        },
        _ => true,
    }
}

/// A pattern that can be compiled and has no empty string. The parser gives such patterns, and
/// the optimizer keeps them so.
pub open spec fn solid(p: PatternView) -> bool
    decreases p,
{
    match p {
        PatternView::Concat(ps) => ps.len() > 0 && forall|i: int|
            0 <= i < ps.len() ==> solid(#[trigger] ps[i]),
        PatternView::Alternate(ps) => forall|i: int| 0 <= i < ps.len() ==> solid(#[trigger] ps[i]),
        PatternView::Submatch(q) => solid(*q),
        PatternView::Repeated(r) => match *r {
            RepetitionView::ZeroOrOnce(q) => solid(q),
            RepetitionView::ZeroOrMore(q) => solid(q),
            RepetitionView::OnceOrMore(q) => solid(q),
            RepetitionView::Specific(q, min, max) => solid(q) && match max {
                Some(m) => min <= m,
                None => true,
            },
        },
        PatternView::Str(chars) => chars.len() > 0,
        _ => true,
    }
}

/// A solid pattern can be compiled.
pub proof fn lemma_solid_compilable(p: PatternView)
    requires
        solid(p),
    ensures
        compilable(p),
    decreases p,
{
    match p {
        PatternView::Concat(ps) => {
            assert forall|i: int| 0 <= i < ps.len() implies compilable(#[trigger] ps[i]) by {
                assert(solid(ps[i]));
                lemma_solid_compilable(ps[i]);
            }
        },
        PatternView::Alternate(ps) => {
            assert forall|i: int| 0 <= i < ps.len() implies compilable(#[trigger] ps[i]) by {
                assert(solid(ps[i]));
                lemma_solid_compilable(ps[i]);
            }
        },
        PatternView::Submatch(q) => {
            lemma_solid_compilable(*q);
        },
        PatternView::Repeated(r) => {
            match *r {
                RepetitionView::ZeroOrOnce(q) => {
                    lemma_solid_compilable(q);
                },
                RepetitionView::ZeroOrMore(q) => {
                    lemma_solid_compilable(q);
                },
                RepetitionView::OnceOrMore(q) => {
                    lemma_solid_compilable(q);
                },
                RepetitionView::Specific(q, min, max) => {
                    lemma_solid_compilable(q);
                },
            }
        },
        _ => {},
    }
}

/// How many fragments a counted repetition is made of: `min` copies of the pattern, then one
/// optional copy for each repetition allowed beyond `min`, or one copy repeated any number of
/// times where there is no upper limit.
pub open spec fn specific_items(min: nat, max: Option<nat>) -> nat {
    match max {
        Some(m) => if m >= min {
            m
        } else {
            min
        },
        None => min + 1,
    }
}

/// The fragment of the pattern `p` built onto the graph `g`.
pub open spec fn lower(p: PatternView, g: Seq<StateView>) -> Fragment
    decreases p, 0nat,
{
    match p {
        PatternView::Concat(ps) => lower_concat(ps, ps.len(), g),
        PatternView::Alternate(ps) => lower_alternate(ps, g),
        PatternView::Submatch(q) => submatch_of(lower(*q, g)),
        PatternView::Repeated(r) => lower_repetition(*r, g),
        PatternView::Char(c) => single(g, MatcherKind::Char(c)),
        PatternView::Any => single(g, MatcherKind::Any),
        PatternView::Str(s) => single(g, MatcherKind::Str(s)),
        PatternView::CharRange(lo, hi) => single(g, MatcherKind::CharRange(lo, hi)),
        PatternView::CharSet(set) => single(g, MatcherKind::CharSet(set)),
        PatternView::Anchor(AnchorLocation::Begin) => single(g, MatcherKind::AnchorBegin),
        PatternView::Anchor(AnchorLocation::End) => single(g, MatcherKind::AnchorEnd),
    }
}

/// The first `n` patterns of `ps` one after the other, built onto the graph `g`.
pub open spec fn lower_concat(ps: Seq<PatternView>, n: nat, g: Seq<StateView>) -> Fragment
    decreases ps, n,
{
    if n == 0 || n > ps.len() {
        Fragment { graph: g, entry: 0, loose: Seq::empty() }
    } else if n == 1 {
        lower(ps[0], g)
    } else {
        let first = lower_concat(ps, (n - 1) as nat, g);
        joined(first, lower(ps[n - 1], first.graph))
    }
}

/// The choice between the patterns `ps`, built onto the graph `g`: the patterns are split into
/// halves until one is left. Where there is no pattern to choose from, it is a state whose
/// matcher accepts nothing.
pub open spec fn lower_alternate(ps: Seq<PatternView>, g: Seq<StateView>) -> Fragment
    decreases ps, 0nat,
{
    if ps.len() == 0 {
        single(g, never())
    } else if ps.len() == 1 {
        lower(ps[0], g)
    } else {
        let mid = (ps.len() / 2) as int;
        proof {
            vstd::seq::axiom_seq_subrange_decreases(ps, 0, mid);
            vstd::seq::axiom_seq_subrange_decreases(ps, mid, ps.len() as int);
        }
        let left = lower_alternate(ps.subrange(0, mid), g);
        forked(left, lower_alternate(ps.subrange(mid, ps.len() as int), left.graph))
    }
}

/// The fragment of a repetition built onto the graph `g`. A counted repetition that allows no
/// repetition at all is a state that consumes nothing.
pub open spec fn lower_repetition(r: RepetitionView, g: Seq<StateView>) -> Fragment
    decreases r, 0nat,
{
    match r {
        RepetitionView::ZeroOrOnce(q) => zero_or_once_of(lower(q, g)),
        RepetitionView::ZeroOrMore(q) => zero_or_more_of(lower(q, g)),
        RepetitionView::OnceOrMore(q) => once_or_more_of(lower(q, g)),
        RepetitionView::Specific(q, min, max) => if specific_items(min, max) == 0 {
            nothing(g)
        } else {
            lower_specific(q, min, max, specific_items(min, max), g)
        },
    }
}

/// The item at `index` of a counted repetition of `q`, built onto the graph `g`: a copy of `q`
/// below `min`, then an optional copy, or a copy repeated any number of times where there is no
/// upper limit.
pub open spec fn lower_item(q: PatternView, min: nat, max: Option<nat>, index: nat, g: Seq<
    StateView,
>) -> Fragment
    decreases q, 1nat,
{
    if index < min {
        lower(q, g)
    } else if max is Some {
        zero_or_once_of(lower(q, g))
    } else {
        zero_or_more_of(lower(q, g))
    }
}

/// The first `n` items of a counted repetition of `q` one after the other, built onto the graph
/// `g`.
pub open spec fn lower_specific(
    q: PatternView,
    min: nat,
    max: Option<nat>,
    n: nat,
    g: Seq<StateView>,
) -> Fragment
    decreases q, n + 1,
{
    if n == 0 {
        Fragment { graph: g, entry: 0, loose: Seq::empty() }
    } else if n == 1 {
        lower_item(q, min, max, 0, g)
    } else {
        let first = lower_specific(q, min, max, (n - 1) as nat, g);
        joined(first, lower_item(q, min, max, (n - 1) as nat, first.graph))
    }
}

/// The patterns that a counted repetition of `q` stands for, one after the other: `min` copies
/// of `q`, then one optional copy for each repetition allowed beyond `min`, or one copy repeated
/// any number of times where there is no upper limit.
pub open spec fn specific_copies(q: PatternView, min: nat, max: Option<nat>) -> Seq<PatternView> {
    Seq::new(
        specific_items(min, max),
        |i: int|
            if i < min {
                q
            } else if max is Some {
                PatternView::Repeated(Box::new(RepetitionView::ZeroOrOnce(q)))
            } else {
                PatternView::Repeated(Box::new(RepetitionView::ZeroOrMore(q)))
            },
    )
}

proof fn lemma_specific_copies(q: PatternView, min: nat, max: Option<nat>, n: nat, g: Seq<StateView>)
    requires
        1 <= n <= specific_items(min, max),
    ensures
        lower_specific(q, min, max, n, g) == lower_concat(specific_copies(q, min, max), n, g),
    decreases n,
{
    let copies = specific_copies(q, min, max);
    reveal_with_fuel(lower, 2);
    if n > 1 {
        lemma_specific_copies(q, min, max, (n - 1) as nat, g);
        let first = lower_specific(q, min, max, (n - 1) as nat, g);
        assert(lower(copies[n - 1], first.graph) == lower_item(
            q,
            min,
            max,
            (n - 1) as nat,
            first.graph,
        ));
    } else {
        assert(lower(copies[0], g) == lower_item(q, min, max, 0, g));
    }
}

/// A counted repetition is compiled as the sequence of the patterns that it stands for.
pub proof fn specific_is_sequence(q: PatternView, min: nat, max: Option<nat>, g: Seq<StateView>)
    requires
        specific_items(min, max) >= 1,
    ensures
        lower(PatternView::Repeated(Box::new(RepetitionView::Specific(q, min, max))), g) == lower(
            PatternView::Concat(specific_copies(q, min, max)),
            g,
        ),
{
    reveal_with_fuel(lower, 2);
    lemma_specific_copies(q, min, max, specific_items(min, max), g);
}

/// The graph of a pattern: a state that starts the whole match and leads to the entry of the
/// pattern's fragment, the fragment, and a last state that ends the whole match, to which the
/// loose ends of the fragment lead.
pub open spec fn compiled(p: PatternView) -> Seq<StateView> {
    let f = lower(p, seq![empty_state(None, None, Some(Submatch::Start))]);
    let last = f.graph.len();
    patch_all(
        f.graph.update(0, empty_state(Some(f.entry), None, Some(Submatch::Start))).push(
            empty_state(None, None, Some(Submatch::End)),
        ),
        f.loose,
        last,
    )
}

/// What holds of a fragment `f` that was built onto the graph `g`: the states of `g` are as
/// they were; the states of the fragment come after them and lead only to each other; the entry
/// is one of them; the loose ends are different states of the fragment whose second successor
/// is free; and every other state of the fragment has a successor.
pub open spec fn fragment_ok(g: Seq<StateView>, f: Fragment) -> bool {
    let lo = g.len();
    let hi = f.graph.len();
    &&& lo < hi
    &&& forall|k: int| 0 <= k < lo ==> #[trigger] f.graph[k] == g[k]
    &&& lo <= f.entry < hi
    &&& forall|i: int|
        0 <= i < f.loose.len() ==> lo <= #[trigger] f.loose[i] < hi && f.graph[f.loose[i] as int].out1
            is None
    &&& forall|i: int, j: int|
        0 <= i < j < f.loose.len() ==> #[trigger] f.loose[i] != #[trigger] f.loose[j]
    &&& forall|k: int| lo <= k < hi ==> closed_state(#[trigger] f.graph[k], lo, hi)
    &&& forall|k: int|
        lo <= k < hi && !f.loose.contains(k as nat) ==> (#[trigger] f.graph[k]).out is Some
}

/// A single state is a fragment.
pub proof fn lemma_single(g: Seq<StateView>, kind: MatcherKind)
    ensures
        fragment_ok(g, single(g, kind)),
{
    let f = single(g, kind);
    assert(f.loose[0] == g.len());
    assert forall|k: int| g.len() <= k < f.graph.len() && !f.loose.contains(k as nat) implies (
    #[trigger] f.graph[k]).out is Some by {
        assert(f.loose[0] == k as nat);
    }
}

/// A state that consumes nothing is a fragment.
pub proof fn lemma_nothing(g: Seq<StateView>)
    ensures
        fragment_ok(g, nothing(g)),
{
    let f = nothing(g);
    assert(f.loose[0] == g.len());
    assert forall|k: int| g.len() <= k < f.graph.len() && !f.loose.contains(k as nat) implies (
    #[trigger] f.graph[k]).out is Some by {
        assert(f.loose[0] == k as nat);
    }
}

/// A fragment between the two states of a submatch is a fragment.
pub proof fn lemma_submatch_of(g: Seq<StateView>, f: Fragment)
    requires
        fragment_ok(g, f),
    ensures
        fragment_ok(g, submatch_of(f)),
{
    let r = submatch_of(f);
    let before = f.graph.len();
    let after = before + 1;
    let lo = g.len();
    let hi = r.graph.len();
    assert(r.loose[0] == after);
    assert forall|i: int| 0 <= i < f.loose.len() implies f.loose[i] < before by {}
    assert(!f.loose.contains(before));
    assert(!f.loose.contains(after));
    assert forall|k: int| lo <= k < hi implies closed_state(#[trigger] r.graph[k], lo, hi) by {
        if k < before {
            assert(closed_state(f.graph[k], lo, before));
        }
    }
    assert forall|k: int| lo <= k < hi && !r.loose.contains(k as nat) implies (
    #[trigger] r.graph[k]).out is Some by {
        if k < before {
            if !f.loose.contains(k as nat) {
                assert(f.graph[k].out is Some);
            }
        } else if k == after {
            assert(r.loose[0] == k as nat);
        }
    }
}

/// An optional fragment is a fragment.
pub proof fn lemma_zero_or_once_of(g: Seq<StateView>, f: Fragment)
    requires
        fragment_ok(g, f),
    ensures
        fragment_ok(g, zero_or_once_of(f)),
{
    let r = zero_or_once_of(f);
    let after = f.graph.len();
    let before = after + 1;
    let lo = g.len();
    let hi = r.graph.len();
    assert(r.loose[0] == after);
    assert forall|i: int| 0 <= i < f.loose.len() implies f.loose[i] < after by {}
    assert(!f.loose.contains(before));
    assert(!f.loose.contains(after));
    assert forall|k: int| lo <= k < hi implies closed_state(#[trigger] r.graph[k], lo, hi) by {
        if k < after {
            assert(closed_state(f.graph[k], lo, after));
        }
    }
    assert forall|k: int| lo <= k < hi && !r.loose.contains(k as nat) implies (
    #[trigger] r.graph[k]).out is Some by {
        if k < after {
            if !f.loose.contains(k as nat) {
                assert(f.graph[k].out is Some);
            }
        } else if k == after {
            assert(r.loose[0] == k as nat);
        }
    }
}

/// A fragment repeated any number of times is a fragment.
pub proof fn lemma_zero_or_more_of(g: Seq<StateView>, f: Fragment)
    requires
        fragment_ok(g, f),
    ensures
        fragment_ok(g, zero_or_more_of(f)),
{
    let r = zero_or_more_of(f);
    let before = f.graph.len();
    let after = before + 1;
    let lo = g.len();
    let hi = r.graph.len();
    assert(r.loose[0] == after);
    assert forall|i: int| 0 <= i < f.loose.len() implies f.loose[i] < before by {}
    assert(!f.loose.contains(before));
    assert(!f.loose.contains(after));
    assert forall|k: int| lo <= k < hi implies closed_state(#[trigger] r.graph[k], lo, hi) by {
        if k < before {
            assert(closed_state(f.graph[k], lo, before));
        }
    }
    assert forall|k: int| lo <= k < hi && !r.loose.contains(k as nat) implies (
    #[trigger] r.graph[k]).out is Some by {
        if k < before {
            if !f.loose.contains(k as nat) {
                assert(f.graph[k].out is Some);
            }
        } else if k == after {
            assert(r.loose[0] == k as nat);
        }
    }
}

/// A fragment repeated once or more is a fragment.
pub proof fn lemma_once_or_more_of(g: Seq<StateView>, f: Fragment)
    requires
        fragment_ok(g, f),
    ensures
        fragment_ok(g, once_or_more_of(f)),
{
    let r = once_or_more_of(f);
    let after = f.graph.len();
    let lo = g.len();
    let hi = r.graph.len();
    assert(r.loose[0] == after);
    assert forall|i: int| 0 <= i < f.loose.len() implies f.loose[i] < after by {}
    assert(!f.loose.contains(after));
    assert forall|k: int| lo <= k < hi implies closed_state(#[trigger] r.graph[k], lo, hi) by {
        if k < after {
            assert(closed_state(f.graph[k], lo, after));
        }
    }
    assert forall|k: int| lo <= k < hi && !r.loose.contains(k as nat) implies (
    #[trigger] r.graph[k]).out is Some by {
        if k < after {
            if !f.loose.contains(k as nat) {
                assert(f.graph[k].out is Some);
            }
        } else {
            assert(r.loose[0] == k as nat);
        }
    }
}

/// Two fragments one after the other are a fragment.
pub proof fn lemma_joined(g: Seq<StateView>, first: Fragment, second: Fragment)
    requires
        fragment_ok(g, first),
        fragment_ok(first.graph, second),
    ensures
        fragment_ok(g, joined(first, second)),
{
    let r = joined(first, second);
    let lo = g.len();
    let mid = first.graph.len();
    let hi = r.graph.len();
    assert forall|k: int| 0 <= k < lo implies #[trigger] r.graph[k] == g[k] by {
        if first.loose.contains(k as nat) {
            let i = choose|i: int| 0 <= i < first.loose.len() && first.loose[i] == k as nat;
            assert(lo <= first.loose[i]);
        }
        assert(second.graph[k] == first.graph[k]);
    }
    assert forall|i: int| 0 <= i < r.loose.len() implies lo <= #[trigger] r.loose[i] < hi
        && r.graph[r.loose[i] as int].out1 is None by {
        let k = second.loose[i];
        assert(mid <= k);
        if first.loose.contains(k) {
            let j = choose|j: int| 0 <= j < first.loose.len() && first.loose[j] == k;
            assert(first.loose[j] < mid);
        }
    }
    assert forall|k: int| lo <= k < hi implies closed_state(#[trigger] r.graph[k], lo, hi) by {
        if k < mid {
            assert(second.graph[k] == first.graph[k]);
            assert(closed_state(first.graph[k], lo, mid));
        } else {
            assert(closed_state(second.graph[k], mid, hi));
            if first.loose.contains(k as nat) {
                let j = choose|j: int| 0 <= j < first.loose.len() && first.loose[j] == k as nat;
                assert(first.loose[j] < mid);
            }
        }
    }
    assert forall|k: int| lo <= k < hi && !r.loose.contains(k as nat) implies (
    #[trigger] r.graph[k]).out is Some by {
        if k < mid {
            assert(second.graph[k] == first.graph[k]);
            if !first.loose.contains(k as nat) {
                assert(first.graph[k].out is Some);
            }
        } else {
            assert(second.graph[k].out is Some);
        }
    }
}

/// The choice between two fragments is a fragment.
pub proof fn lemma_forked(g: Seq<StateView>, left: Fragment, right: Fragment)
    requires
        fragment_ok(g, left),
        fragment_ok(left.graph, right),
    ensures
        fragment_ok(g, forked(left, right)),
{
    let r = forked(left, right);
    let lo = g.len();
    let mid = left.graph.len();
    let fork = right.graph.len();
    let hi = r.graph.len();
    assert forall|k: int| 0 <= k < lo implies #[trigger] r.graph[k] == g[k] by {
        assert(right.graph[k] == left.graph[k]);
    }
    assert forall|i: int| 0 <= i < r.loose.len() implies lo <= #[trigger] r.loose[i] < hi
        && r.graph[r.loose[i] as int].out1 is None by {
        if i < left.loose.len() {
            let k = left.loose[i];
            assert(right.graph[k as int] == left.graph[k as int]);
        } else {
            let k = right.loose[i - left.loose.len()];
            assert(mid <= k);
        }
    }
    assert forall|i: int, j: int| 0 <= i < j < r.loose.len() implies #[trigger] r.loose[i]
        != #[trigger] r.loose[j] by {
        if j < left.loose.len() {
        } else if i >= left.loose.len() {
            assert(right.loose[i - left.loose.len()] != right.loose[j - left.loose.len()]);
        } else {
            assert(left.loose[i] < mid);
            assert(mid <= right.loose[j - left.loose.len()]);
        }
    }
    assert forall|k: int| lo <= k < hi implies closed_state(#[trigger] r.graph[k], lo, hi) by {
        if k < mid {
            assert(right.graph[k] == left.graph[k]);
            assert(closed_state(left.graph[k], lo, mid));
        } else if k < fork {
            assert(closed_state(right.graph[k], mid, fork));
        }
    }
    assert forall|k: int| lo <= k < hi && !r.loose.contains(k as nat) implies (
    #[trigger] r.graph[k]).out is Some by {
        if k < mid {
            assert(right.graph[k] == left.graph[k]);
            if left.loose.contains(k as nat) {
                let i = choose|i: int| 0 <= i < left.loose.len() && left.loose[i] == k as nat;
                assert(r.loose[i] == k as nat);
            }
            assert(left.graph[k].out is Some);
        } else if k < fork {
            if right.loose.contains(k as nat) {
                let i = choose|i: int| 0 <= i < right.loose.len() && right.loose[i] == k as nat;
                assert(r.loose[left.loose.len() + i] == k as nat);
            }
            assert(right.graph[k].out is Some);
        }
    }
}

/// A pattern that can be compiled gives a fragment of which `fragment_ok` holds.
pub proof fn lemma_lower_ok(p: PatternView, g: Seq<StateView>)
    requires
        compilable(p),
    ensures
        fragment_ok(g, lower(p, g)),
    decreases p, 0nat,
{
    match p {
        PatternView::Concat(ps) => {
            lemma_lower_concat_ok(ps, ps.len(), g);
        },
        PatternView::Alternate(ps) => {
            lemma_lower_alternate_ok(ps, g);
        },
        PatternView::Submatch(q) => {
            lemma_lower_ok(*q, g);
            lemma_submatch_of(g, lower(*q, g));
        },
        PatternView::Repeated(r) => {
            lemma_lower_repetition_ok(*r, g);
        },
        PatternView::Char(c) => {
            lemma_single(g, MatcherKind::Char(c));
        },
        PatternView::Any => {
            lemma_single(g, MatcherKind::Any);
        },
        PatternView::Str(s) => {
            lemma_single(g, MatcherKind::Str(s));
        },
        PatternView::CharRange(lo, hi) => {
            lemma_single(g, MatcherKind::CharRange(lo, hi));
        },
        PatternView::CharSet(set) => {
            lemma_single(g, MatcherKind::CharSet(set));
        },
        PatternView::Anchor(AnchorLocation::Begin) => {
            lemma_single(g, MatcherKind::AnchorBegin);
        },
        PatternView::Anchor(AnchorLocation::End) => {
            lemma_single(g, MatcherKind::AnchorEnd);
        },
    }
}

/// The same of the first `n` patterns of a sequence.
pub proof fn lemma_lower_concat_ok(ps: Seq<PatternView>, n: nat, g: Seq<StateView>)
    requires
        1 <= n <= ps.len(),
        forall|i: int| 0 <= i < ps.len() ==> compilable(#[trigger] ps[i]),
    ensures
        fragment_ok(g, lower_concat(ps, n, g)),
    decreases ps, n,
{
    if n == 1 {
        lemma_lower_ok(ps[0], g);
    } else {
        lemma_lower_concat_ok(ps, (n - 1) as nat, g);
        let first = lower_concat(ps, (n - 1) as nat, g);
        lemma_lower_ok(ps[n - 1], first.graph);
        lemma_joined(g, first, lower(ps[n - 1], first.graph));
    }
}

/// The same of an alternation.
pub proof fn lemma_lower_alternate_ok(ps: Seq<PatternView>, g: Seq<StateView>)
    requires
        forall|i: int| 0 <= i < ps.len() ==> compilable(#[trigger] ps[i]),
    ensures
        fragment_ok(g, lower_alternate(ps, g)),
    decreases ps, 0nat,
{
    if ps.len() == 0 {
        lemma_single(g, never());
    } else if ps.len() == 1 {
        lemma_lower_ok(ps[0], g);
    } else {
        let mid = (ps.len() / 2) as int;
        vstd::seq::axiom_seq_subrange_decreases(ps, 0, mid);
        vstd::seq::axiom_seq_subrange_decreases(ps, mid, ps.len() as int);
        let a = ps.subrange(0, mid);
        let b = ps.subrange(mid, ps.len() as int);
        assert forall|i: int| 0 <= i < a.len() implies compilable(#[trigger] a[i]) by {
            assert(a[i] == ps[i]);
        }
        assert forall|i: int| 0 <= i < b.len() implies compilable(#[trigger] b[i]) by {
            assert(b[i] == ps[mid + i]);
        }
        lemma_lower_alternate_ok(a, g);
        let left = lower_alternate(a, g);
        lemma_lower_alternate_ok(b, left.graph);
        lemma_forked(g, left, lower_alternate(b, left.graph));
    }
}

/// The same of a repetition.
pub proof fn lemma_lower_repetition_ok(r: RepetitionView, g: Seq<StateView>)
    requires
        compilable(PatternView::Repeated(Box::new(r))),
    ensures
        fragment_ok(g, lower_repetition(r, g)),
    decreases r, 0nat,
{
    match r {
        RepetitionView::ZeroOrOnce(q) => {
            lemma_lower_ok(q, g);
            lemma_zero_or_once_of(g, lower(q, g));
        },
        RepetitionView::ZeroOrMore(q) => {
            lemma_lower_ok(q, g);
            lemma_zero_or_more_of(g, lower(q, g));
        },
        RepetitionView::OnceOrMore(q) => {
            lemma_lower_ok(q, g);
            lemma_once_or_more_of(g, lower(q, g));
        },
        RepetitionView::Specific(q, min, max) => {
            if specific_items(min, max) == 0 {
                lemma_nothing(g);
            } else {
                lemma_lower_specific_ok(q, min, max, specific_items(min, max), g);
            }
        },
    }
}

/// The same of one item of a counted repetition.
pub proof fn lemma_lower_item_ok(
    q: PatternView,
    min: nat,
    max: Option<nat>,
    index: nat,
    g: Seq<StateView>,
)
    requires
        compilable(q),
    ensures
        fragment_ok(g, lower_item(q, min, max, index, g)),
    decreases q, 1nat,
{
    lemma_lower_ok(q, g);
    if index < min {
    } else if max is Some {
        lemma_zero_or_once_of(g, lower(q, g));
    } else {
        lemma_zero_or_more_of(g, lower(q, g));
    }
}

/// The same of the first `n` items of a counted repetition.
pub proof fn lemma_lower_specific_ok(
    q: PatternView,
    min: nat,
    max: Option<nat>,
    n: nat,
    g: Seq<StateView>,
)
    requires
        compilable(q),
        n >= 1,
    ensures
        fragment_ok(g, lower_specific(q, min, max, n, g)),
    decreases q, n + 1,
{
    if n == 1 {
        lemma_lower_item_ok(q, min, max, 0, g);
    } else {
        lemma_lower_specific_ok(q, min, max, (n - 1) as nat, g);
        let first = lower_specific(q, min, max, (n - 1) as nat, g);
        lemma_lower_item_ok(q, min, max, (n - 1) as nat, first.graph);
        lemma_joined(g, first, lower_item(q, min, max, (n - 1) as nat, first.graph));
    }
}

/// The shape of a compiled graph: the first state starts the whole match; the last state ends
/// it and is the only one without a successor; and every successor is a state of the graph.
pub open spec fn bracketed(g: Seq<StateView>) -> bool {
    &&& g.len() >= 2
    &&& g[0].sub == Some(Submatch::Start)
    &&& g[0].matcher is None
    &&& g.last().sub == Some(Submatch::End)
    &&& g.last().matcher is None
    &&& g.last().is_last()
    &&& forall|k: int| 0 <= k < g.len() - 1 ==> (#[trigger] g[k]).out is Some
    &&& well_formed(g)
}

/// The graph of a pattern that can be compiled begins with a state that starts a submatch and
/// ends with a state that ends one; every state but the last has a successor, and every
/// successor is a state of the graph.
pub proof fn lemma_compiled_bracketed(p: PatternView)
    requires
        compilable(p),
    ensures
        bracketed(compiled(p)),
{
    let start = seq![empty_state(None, None, Some(Submatch::Start))];
    let f = lower(p, start);
    lemma_lower_ok(p, start);
    let last = f.graph.len();
    let g = compiled(p);
    assert forall|i: int| 0 <= i < f.loose.len() implies 1 <= #[trigger] f.loose[i] < last by {}
    assert(!f.loose.contains(0));
    assert(!f.loose.contains(last));
    assert forall|k: int| 0 <= k < g.len() - 1 implies (#[trigger] g[k]).out is Some by {
        if k >= 1 {
            if !f.loose.contains(k as nat) {
                assert(f.graph[k].out is Some);
            }
        }
    }
    assert forall|k: int| 0 <= k < g.len() implies closed_state(#[trigger] g[k], 0, g.len()) by {
        if 1 <= k < last {
            assert(closed_state(f.graph[k], 1, last));
        }
    }
}

/// The graph `after` and the pair `r` of an entry and loose ends are the fragment `f`, built
/// onto the graph `before`.
pub open spec fn built(
    before: Seq<State>,
    after: Seq<State>,
    r: (StateRef, Vec<StateRef>),
    f: Fragment,
) -> bool {
    &&& graph_view(after) == f.graph
    &&& r.0 == f.entry
    &&& refs_view(r.1@) == f.loose
    &&& fragment_ok(graph_view(before), f)
}

/// Types implementing Compile can be compiled into a state graph.
pub trait Compile {
    /// Whether this value can be compiled.
    spec fn can_compile(&self) -> bool;

    /// The fragment of this value built onto the graph `g`.
    spec fn fragment(&self, g: Seq<StateView>) -> Fragment;

    /// to_state appends the states of this value to the graph. It returns the start node of the
    /// subgraph, and a list of pointers that need to be connected to the following subgraph.
    /// The list can contain the first tuple element.
    fn to_state(&self, sg: &mut StateGraph) -> (r: (StateRef, Vec<StateRef>))
        requires
            self.can_compile(),
        ensures
            built(old(sg)@, final(sg)@, r, self.fragment(graph_view(old(sg)@))),
    ;
}

/// Appends a state to the graph and returns its index.
fn push_state(sg: &mut StateGraph, s: State) -> (at: StateRef)
    ensures
        at == old(sg)@.len(),
        final(sg)@ == old(sg)@.push(s),
        graph_view(final(sg)@) == graph_view(old(sg)@).push(s@),
{
    let at = sg.len();
    sg.push(s);
    assert(graph_view(sg@) =~= graph_view(old(sg)@).push(s@));
    at
}

/// Gives `next` as a successor to each of the states `ends`, which must be different states
/// with a free place for a successor.
fn patch_ends(sg: &mut StateGraph, ends: &Vec<StateRef>, next: StateRef)
    requires
        forall|i: int|
            0 <= i < ends@.len() ==> (#[trigger] ends@[i]) < old(sg)@.len() && old(
                sg,
            )@[ends@[i] as int].out1 is None,
        forall|i: int, j: int| 0 <= i < j < ends@.len() ==> #[trigger] ends@[i] != #[trigger] ends@[j],
    ensures
        graph_view(final(sg)@) == patch_all(graph_view(old(sg)@), refs_view(ends@), next as nat),
{
    let ghost before = graph_view(sg@);
    let ghost all = refs_view(ends@);
    let mut i: usize = 0;
    assert(graph_view(sg@) =~= patch_all(before, all.take(0), next as nat));
    while i < ends.len()
        invariant
            i <= ends@.len(),
            all == refs_view(ends@),
            before == graph_view(old(sg)@),
            sg@.len() == old(sg)@.len(),
            forall|i: int|
                0 <= i < ends@.len() ==> (#[trigger] ends@[i]) < old(sg)@.len() && old(
                    sg,
                )@[ends@[i] as int].out1 is None,
            forall|i: int, j: int|
                0 <= i < j < ends@.len() ==> #[trigger] ends@[i] != #[trigger] ends@[j],
            forall|k: int|
                0 <= k < sg@.len() && !all.take(i as int).contains(k as nat) ==> sg@[k] == old(
                    sg,
                )@[k],
            graph_view(sg@) == patch_all(before, all.take(i as int), next as nat),
        decreases ends@.len() - i,
    {
        let at = ends[i];
        let ghost so_far = graph_view(sg@);
        proof {
            if all.take(i as int).contains(at as nat) {
                let j = choose|j: int| 0 <= j < i && all.take(i as int)[j] == at as nat;
                assert(ends@[j] != ends@[i as int]);
            }
        }
        let ghost states = sg@;
        sg[at].patch(next);
        proof {
            let now = all.take(i + 1);
            assert(now =~= all.take(i as int).push(at as nat));
            assert(now[i as int] == at as nat);
            assert forall|k: int| 0 <= k < sg@.len() && !now.contains(k as nat) implies sg@[k]
                == old(sg)@[k] by {
                assert(k != at);
                assert(sg@[k] == states[k]);
                if all.take(i as int).contains(k as nat) {
                    let j = choose|j: int| 0 <= j < i && all.take(i as int)[j] == k as nat;
                    assert(now[j] == k as nat);
                }
            }
            assert(graph_view(sg@) =~= patch_all(before, now, next as nat)) by {
                assert forall|k: int| 0 <= k < sg@.len() implies graph_view(sg@)[k] == patch_all(
                    before,
                    now,
                    next as nat,
                )[k] by {
                    if k == at {
                        assert(now[i as int] == at as nat);
                    } else {
                        assert(graph_view(sg@)[k] == so_far[k]);
                        if all.take(i as int).contains(k as nat) {
                            let j = choose|j: int| 0 <= j < i && all.take(i as int)[j] == k as nat;
                            assert(now[j] == k as nat);
                        } else {
                            if now.contains(k as nat) {
                                let j = choose|j: int| 0 <= j < now.len() && now[j] == k as nat;
                                if j < i {
                                    assert(all.take(i as int)[j] == k as nat);
                                }
                            }
                        }
                    }
                }
            }
        }
        i += 1;
    }
    assert(all.take(ends@.len() as int) =~= all);
}

/// The loose ends of a fragment can be patched in a graph that begins with the states of the
/// fragment's graph.
proof fn lemma_ends_free(before: Seq<StateView>, f: Fragment, ends: Seq<StateRef>, now: Seq<State>)
    requires
        fragment_ok(before, f),
        refs_view(ends) == f.loose,
        now.len() >= f.graph.len(),
        forall|k: int| before.len() <= k < f.graph.len() ==> (#[trigger] now[k])@ == f.graph[k],
    ensures
        forall|i: int|
            0 <= i < ends.len() ==> (#[trigger] ends[i]) < now.len() && now[ends[i] as int].out1
                is None,
        forall|i: int, j: int| 0 <= i < j < ends.len() ==> #[trigger] ends[i] != #[trigger] ends[j],
{
    assert forall|i: int| 0 <= i < ends.len() implies (#[trigger] ends[i]) < now.len()
        && now[ends[i] as int].out1 is None by {
        assert(refs_view(ends)[i] == ends[i] as nat);
        assert(f.loose[i] == ends[i] as nat);
        assert(f.graph[f.loose[i] as int].out1 is None);
        assert(now[ends[i] as int]@ == f.graph[ends[i] as int]);
    }
    assert forall|i: int, j: int| 0 <= i < j < ends.len() implies #[trigger] ends[i]
        != #[trigger] ends[j] by {
        assert(refs_view(ends)[i] == ends[i] as nat);
        assert(refs_view(ends)[j] == ends[j] as nat);
        assert(f.loose[i] != f.loose[j]);
    }
}

/// Appends a state with the matcher `m`: it is the entry and the only loose end.
fn matcher_node(sg: &mut StateGraph, m: WrappedMatcher) -> (r: (StateRef, Vec<StateRef>))
    ensures
        built(old(sg)@, final(sg)@, r, single(graph_view(old(sg)@), m.kind())),
{
    let ghost kind = m.kind();
    let s = State { out: None, out1: None, matcher: wrap_matcher(m), sub: None };
    let sref = push_state(sg, s);
    let mut ends: Vec<StateRef> = Vec::new();
    ends.push(sref);
    proof {
        lemma_single(graph_view(old(sg)@), kind);
        assert(refs_view(ends@) =~= seq![sref as nat]);
    }
    (sref, ends)
}

/// The views of a part of a sequence of patterns are that part of the views.
proof fn lemma_views_subrange(ps: Seq<Pattern>, from: int, to: int)
    requires
        0 <= from <= to <= ps.len(),
    ensures
        views(ps.subrange(from, to)) == views(ps).subrange(from, to),
{
    assert(views(ps.subrange(from, to)) =~= views(ps).subrange(from, to));
}

/// alternate compiles a list of patterns into a graph that accepts any one of the patterns.
pub fn alternate(sg: &mut StateGraph, ps: &[Pattern]) -> (r: (StateRef, Vec<StateRef>))
    requires
        forall|i: int| 0 <= i < ps@.len() ==> compilable(#[trigger] ps@[i]@),
    ensures
        built(old(sg)@, final(sg)@, r, lower_alternate(views(ps@), graph_view(old(sg)@))),
    decreases ps@, 0nat,
{
    let ghost g0 = graph_view(sg@);
    let ghost all = views(ps@);
    proof {
        assert forall|i: int| 0 <= i < all.len() implies compilable(#[trigger] all[i]) by {
            assert(compilable(ps@[i]@));
        }
        lemma_lower_alternate_ok(all, g0);
    }
    if ps.len() == 0 {
        // Nothing to choose from: a state that no thread gets past.
        matcher_node(sg, WrappedMatcher::CharSet(CharSetMatcher(Vec::new())))
    } else if ps.len() == 1 {
        ps[0].to_state(sg)
    } else {
        let mid = ps.len() / 2;
        proof {
            vstd::seq::axiom_seq_subrange_decreases(ps@, 0, mid as int);
            vstd::seq::axiom_seq_subrange_decreases(ps@, mid as int, ps@.len() as int);
            lemma_views_subrange(ps@, 0, mid as int);
            lemma_views_subrange(ps@, mid as int, ps@.len() as int);
        }
        let (left, mut leftpatch) = alternate(sg, &ps[0..mid]);
        let ghost lends = refs_view(leftpatch@);
        let (right, mut rightpatch) = alternate(sg, &ps[mid..ps.len()]);
        let ghost rends = refs_view(rightpatch@);
        let init = State { out: Some(left), out1: Some(right), matcher: None, sub: None };
        leftpatch.append(&mut rightpatch);
        let initref = push_state(sg, init);
        proof {
            assert(refs_view(leftpatch@) =~= lends + rends);
        }
        (initref, leftpatch)
    }
}

/// Compiles `p` and makes it optional.
fn zero_or_once(p: &Pattern, sg: &mut StateGraph) -> (r: (StateRef, Vec<StateRef>))
    requires
        compilable(p@),
    ensures
        built(old(sg)@, final(sg)@, r, zero_or_once_of(lower(p@, graph_view(old(sg)@)))),
    decreases p, 1nat,
{
    let ghost g0 = graph_view(sg@);
    let (s, to_patch) = p.to_state(sg);
    let after = State { out: None, out1: None, matcher: None, sub: None };
    let afterref = push_state(sg, after);
    let before = State { out: Some(s), out1: Some(afterref), matcher: None, sub: None };
    let beforeref = push_state(sg, before);
    proof {
        lemma_ends_free(g0, lower(p@, g0), to_patch@, sg@);
    }
    patch_ends(sg, &to_patch, afterref);
    let mut ends: Vec<StateRef> = Vec::new();
    ends.push(afterref);
    proof {
        lemma_zero_or_once_of(g0, lower(p@, g0));
        assert(refs_view(ends@) =~= seq![afterref as nat]);
    }
    (beforeref, ends)
}

/// Compiles `p` and lets it repeat any number of times.
fn zero_or_more(p: &Pattern, sg: &mut StateGraph) -> (r: (StateRef, Vec<StateRef>))
    requires
        compilable(p@),
    ensures
        built(old(sg)@, final(sg)@, r, zero_or_more_of(lower(p@, graph_view(old(sg)@)))),
    decreases p, 1nat,
{
    let ghost g0 = graph_view(sg@);
    let (s, to_patch) = p.to_state(sg);
    let before = State { out: Some(s), out1: None, matcher: None, sub: None };
    let beforeref = push_state(sg, before);
    let after = State { out: Some(s), out1: None, matcher: None, sub: None };
    let afterref = push_state(sg, after);
    sg[beforeref].patch(afterref);
    proof {
        let f = lower(p@, g0);
        assert(graph_view(sg@) =~= f.graph.push(
            empty_state(Some(f.entry), Some(afterref as nat), None),
        ).push(empty_state(Some(f.entry), None, None)));
        assert forall|k: int| g0.len() <= k < f.graph.len() implies (#[trigger] sg@[k])@
            == f.graph[k] by {
            assert(graph_view(sg@)[k] == sg@[k]@);
        }
        lemma_ends_free(g0, f, to_patch@, sg@);
    }
    patch_ends(sg, &to_patch, afterref);
    let mut ends: Vec<StateRef> = Vec::new();
    ends.push(afterref);
    proof {
        lemma_zero_or_more_of(g0, lower(p@, g0));
        assert(refs_view(ends@) =~= seq![afterref as nat]);
    }
    (beforeref, ends)
}

/// Compiles `p` and lets it repeat once or more.
fn once_or_more(p: &Pattern, sg: &mut StateGraph) -> (r: (StateRef, Vec<StateRef>))
    requires
        compilable(p@),
    ensures
        built(old(sg)@, final(sg)@, r, once_or_more_of(lower(p@, graph_view(old(sg)@)))),
    decreases p, 1nat,
{
    let ghost g0 = graph_view(sg@);
    let (s, to_patch) = p.to_state(sg);
    let after = State { out: Some(s), out1: None, matcher: None, sub: None };
    let afterref = push_state(sg, after);
    proof {
        lemma_ends_free(g0, lower(p@, g0), to_patch@, sg@);
    }
    patch_ends(sg, &to_patch, afterref);
    let mut ends: Vec<StateRef> = Vec::new();
    ends.push(afterref);
    proof {
        lemma_once_or_more_of(g0, lower(p@, g0));
        assert(refs_view(ends@) =~= seq![afterref as nat]);
    }
    (s, ends)
}

/// A limit as a number.
pub open spec fn limit_view(max: Option<u32>) -> Option<nat> {
    match max {
        Some(m) => Some(m as nat),
        None => None,
    }
}

/// Compiles the item at `index` of a counted repetition of `p`.
fn specific_item(p: &Pattern, min: u32, max: Option<u32>, index: u64, sg: &mut StateGraph) -> (r: (
    StateRef,
    Vec<StateRef>,
))
    requires
        compilable(p@),
    ensures
        built(
            old(sg)@,
            final(sg)@,
            r,
            lower_item(p@, min as nat, limit_view(max), index as nat, graph_view(old(sg)@)),
        ),
    decreases p, 2nat,
{
    proof {
        lemma_lower_item_ok(p@, min as nat, limit_view(max), index as nat, graph_view(sg@));
    }
    if index < min as u64 {
        p.to_state(sg)
    } else if max.is_some() {
        zero_or_once(p, sg)
    } else {
        zero_or_more(p, sg)
    }
}

impl Compile for Pattern {
    open spec fn can_compile(&self) -> bool {
        compilable(self@)
    }

    open spec fn fragment(&self, g: Seq<StateView>) -> Fragment {
        lower(self@, g)
    }

    fn to_state(&self, sg: &mut StateGraph) -> (r: (StateRef, Vec<StateRef>))
        decreases self, 0nat,
    {
        let ghost g0 = graph_view(sg@);
        proof {
            lemma_lower_ok(self@, g0);
        }
        match self {
            Pattern::Concat(ps) => {
                let ghost all = views(ps@);
                proof {
                    Pattern::lemma_concat_view(*ps);
                    assert forall|j: int| 0 <= j < all.len() implies compilable(
                        #[trigger] all[j],
                    ) by {}
                    lemma_lower_concat_ok(all, 1, g0);
                }
                let (init, mut lastp) = ps[0].to_state(sg);
                let mut i: usize = 1;
                while i < ps.len()
                    invariant
                        1 <= i <= ps.len(),
                        self is Concat,
                        self->Concat_0 == *ps,
                        all == views(ps@),
                        forall|j: int| 0 <= j < all.len() ==> compilable(#[trigger] all[j]),
                        g0 == graph_view(old(sg)@),
                        built(old(sg)@, sg@, (init, lastp), lower_concat(all, i as nat, g0)),
                    decreases ps.len() - i,
                {
                    let ghost first = lower_concat(all, i as nat, g0);
                    proof {
                        lemma_lower_concat_ok(all, (i + 1) as nat, g0);
                        lemma_lower_ok(all[i as int], first.graph);
                    }
                    let (next, nextp) = ps[i].to_state(sg);
                    proof {
                        let second = lower(all[i as int], first.graph);
                        assert forall|k: int| g0.len() <= k < first.graph.len() implies (
                        #[trigger] sg@[k])@ == first.graph[k] by {
                            assert(second.graph[k] == first.graph[k]);
                            assert(graph_view(sg@)[k] == sg@[k]@);
                        }
                        lemma_ends_free(g0, first, lastp@, sg@);
                        lemma_joined(g0, first, second);
                    }
                    // Connect all loose ends with the new node.
                    patch_ends(sg, &lastp, next);
                    // Remember the loose ends of this one.
                    lastp = nextp;
                    i += 1;
                }
                (init, lastp)
            },
            Pattern::Any => matcher_node(sg, WrappedMatcher::Any(AnyMatcher)),
            Pattern::Char(c) => matcher_node(sg, WrappedMatcher::Char(CharMatcher(*c))),
            Pattern::Str(s) => matcher_node(
                sg,
                WrappedMatcher::Str(StringMatcher::new(s.as_str())),
            ),
            Pattern::CharRange(from, to) => matcher_node(
                sg,
                WrappedMatcher::CharRange(CharRangeMatcher(*from, *to)),
            ),
            Pattern::CharSet(set) => matcher_node(
                sg,
                WrappedMatcher::CharSet(CharSetMatcher(copy_chars(set))),
            ),
            Pattern::Alternate(r) => {
                proof {
                    Pattern::lemma_concat_view(*r);
                    assert forall|j: int| 0 <= j < r@.len() implies compilable(
                        #[trigger] r@[j]@,
                    ) by {
                        assert(compilable(views(r@)[j]));
                    }
                }
                alternate(sg, r.as_slice())
            },
            Pattern::Submatch(p) => {
                let (s, sp) = p.to_state(sg);
                let before = State {
                    out: Some(s),
                    out1: None,
                    matcher: None,
                    sub: Some(Submatch::Start),
                };
                let after = State { out: None, out1: None, matcher: None, sub: Some(Submatch::End) };
                let beforeref = push_state(sg, before);
                let afterref = push_state(sg, after);
                proof {
                    lemma_ends_free(g0, lower(p@, g0), sp@, sg@);
                }
                patch_ends(sg, &sp, afterref);
                let mut ends: Vec<StateRef> = Vec::new();
                ends.push(afterref);
                proof {
                    lemma_submatch_of(g0, lower(p@, g0));
                    assert(refs_view(ends@) =~= seq![afterref as nat]);
                }
                (beforeref, ends)
            },
            Pattern::Repeated(p) => p.to_state(sg),
            Pattern::Anchor(loc) => {
                match loc {
                    AnchorLocation::Begin => matcher_node(
                        sg,
                        WrappedMatcher::Anchor(AnchorMatcher::Begin),
                    ),
                    AnchorLocation::End => matcher_node(
                        sg,
                        WrappedMatcher::Anchor(AnchorMatcher::End),
                    ),
                }
            },
        }
    }
}

/// A copy of the characters.
fn copy_chars(v: &Vec<char>) -> (r: Vec<char>)
    ensures
        r@ == v@,
{
    let mut r: Vec<char> = Vec::new();
    crate::text::append_chars(&mut r, v.as_slice());
    assert(r@ =~= v@);
    r
}

impl Compile for Repetition {
    open spec fn can_compile(&self) -> bool {
        compilable(PatternView::Repeated(Box::new(self@)))
    }

    open spec fn fragment(&self, g: Seq<StateView>) -> Fragment {
        lower_repetition(self@, g)
    }

    fn to_state(&self, sg: &mut StateGraph) -> (r: (StateRef, Vec<StateRef>))
        decreases self, 0nat,
    {
        let ghost g0 = graph_view(sg@);
        match self {
            Repetition::ZeroOrOnce(p) => zero_or_once(p, sg),
            Repetition::ZeroOrMore(p) => zero_or_more(p, sg),
            Repetition::OnceOrMore(p) => once_or_more(p, sg),
            // Specific is 'min' concatenations of a simple state and 'max - min' concatenations
            // of a ZeroOrOnce state.
            Repetition::Specific(p, min, max_) => {
                let total: u64 = match max_ {
                    Some(max) => *max as u64,
                    None => *min as u64 + 1,
                };
                let ghost low = *min as nat;
                let ghost limit = limit_view(*max_);
                assert(total == specific_items(low, limit));
                if total == 0 {
                    // No repetition is allowed: a state that consumes nothing.
                    let sref = push_state(sg, State::default());
                    let mut ends: Vec<StateRef> = Vec::new();
                    ends.push(sref);
                    proof {
                        lemma_nothing(g0);
                        assert(refs_view(ends@) =~= seq![sref as nat]);
                    }
                    return (sref, ends);
                }
                proof {
                    lemma_lower_specific_ok(p@, low, limit, 1, g0);
                }
                let (init, mut lastp) = specific_item(p, *min, *max_, 0, sg);
                let mut i: u64 = 1;
                while i < total
                    invariant
                        1 <= i <= total,
                        self is Specific,
                        self->Specific_0 == *p,
                        compilable(p@),
                        low == *min as nat,
                        limit == limit_view(*max_),
                        g0 == graph_view(old(sg)@),
                        built(
                            old(sg)@,
                            sg@,
                            (init, lastp),
                            lower_specific(p@, low, limit, i as nat, g0),
                        ),
                    decreases total - i,
                {
                    let ghost first = lower_specific(p@, low, limit, i as nat, g0);
                    proof {
                        lemma_lower_specific_ok(p@, low, limit, (i + 1) as nat, g0);
                        lemma_lower_item_ok(p@, low, limit, i as nat, first.graph);
                    }
                    let (next, nextp) = specific_item(p, *min, *max_, i, sg);
                    proof {
                        let second = lower_item(p@, low, limit, i as nat, first.graph);
                        assert forall|k: int| g0.len() <= k < first.graph.len() implies (
                        #[trigger] sg@[k])@ == first.graph[k] by {
                            assert(second.graph[k] == first.graph[k]);
                            assert(graph_view(sg@)[k] == sg@[k]@);
                        }
                        lemma_ends_free(g0, first, lastp@, sg@);
                        lemma_joined(g0, first, second);
                    }
                    patch_ends(sg, &lastp, next);
                    lastp = nextp;
                    i += 1;
                }
                (init, lastp)
            },
        }
    }
}

/// start_compile takes a parsed regex and returns the graph that accepts it. The first state of
/// the graph starts the whole match, the last one ends it, and the paths from the first to the
/// last consume what the pattern matches.
pub fn start_compile(re: &Pattern) -> (state_graph: StateGraph)
    requires
        compilable(re@),
    ensures
        graph_view(state_graph@) == compiled(re@),
        bracketed(graph_view(state_graph@)),
        forall|s: Seq<char>, from: nat, to: nat| #[trigger]
            accepts_to(graph_view(state_graph@), s, Place { node: 0, pos: from }, to)
                == pattern_matches(re@, s, from, to),
{
    proof {
        assert forall|s: Seq<char>, from: nat, to: nat| #[trigger]
            accepts_to(compiled(re@), s, Place { node: 0, pos: from }, to) == pattern_matches(
                re@,
                s,
                from,
                to,
            ) by {
            if pattern_matches(re@, s, from, to) {
                graph_accepts_matches(re@, s, from, to);
            }
            if accepts_to(compiled(re@), s, Place { node: 0, pos: from }, to) {
                graph_accepts_only_matches(re@, s, from, to);
            }
        }
    }
    let mut state_graph: Vec<State> = Vec::with_capacity(64);
    let mut before = State::default();
    before.sub = Some(Submatch::Start);
    // First element in graph vector.
    let beforeref = push_state(&mut state_graph, before);
    let ghost g0 = graph_view(state_graph@);
    assert(g0 =~= seq![empty_state(None, None, Some(Submatch::Start))]);
    let (s, sp) = re.to_state(&mut state_graph);
    let ghost f = lower(re@, g0);
    let ghost lowered = state_graph@;
    state_graph[beforeref].out = Some(s);
    assert(graph_view(state_graph@) =~= f.graph.update(
        0,
        empty_state(Some(f.entry), None, Some(Submatch::Start)),
    )) by {
        assert(f.graph[0] == g0[0]);
    }
    let mut end = State::default();
    end.sub = Some(Submatch::End);
    let endref = push_state(&mut state_graph, end);
    proof {
        assert forall|k: int| g0.len() <= k < f.graph.len() implies (#[trigger] state_graph@[k])@
            == f.graph[k] by {
            assert(state_graph@[k] == lowered[k]);
            assert(graph_view(lowered)[k] == lowered[k]@);
        }
        lemma_ends_free(g0, f, sp@, state_graph@);
    }
    // Connect all loose ends with the final node.
    patch_ends(&mut state_graph, &sp, endref);
    proof {
        lemma_compiled_bracketed(re@);
    }
    state_graph
}




/// Whether all of the patterns can be compiled.
fn all_compilable(ps: &Vec<Pattern>) -> (r: bool)
    ensures
        r == forall|i: int| 0 <= i < ps@.len() ==> compilable(#[trigger] views(ps@)[i]),
    decreases ps, 0nat,
{
    let mut i: usize = 0;
    while i < ps.len()
        invariant
            i <= ps@.len(),
            forall|j: int| 0 <= j < i ==> compilable(#[trigger] views(ps@)[j]),
        decreases ps@.len() - i,
    {
        if !is_compilable(&ps[i]) {
            assert(!compilable(views(ps@)[i as int]));
            return false;
        }
        i += 1;
    }
    true
}

/// Whether a pattern can be compiled.
pub fn is_compilable(p: &Pattern) -> (r: bool)
    ensures
        r == compilable(p@),
    decreases p, 1nat,
{
    proof {
        reveal_with_fuel(Pattern::model, 2);
    }
    match p {
        Pattern::Concat(ps) => {
            proof {
                Pattern::lemma_concat_view(*ps);
            }
            ps.len() > 0 && all_compilable(ps)
        },
        Pattern::Alternate(ps) => {
            proof {
                Pattern::lemma_concat_view(*ps);
            }
            let all = all_compilable(ps);
            proof {
                let alternatives = views(ps@);
                let whole = PatternView::Alternate(alternatives);
                if all {
                    assert forall|i: int| 0 <= i < alternatives.len() implies compilable(
                        #[trigger] alternatives[i],
                    ) by {}
                    assert(compilable(whole));
                } else {
                    let i = choose|i: int|
                        0 <= i < ps@.len() && !compilable(#[trigger] views(ps@)[i]);
                    if compilable(whole) {
                        assert(compilable(alternatives[i]));
                    }
                    assert(!compilable(whole));
                }
            }
            all
        },
        Pattern::Submatch(q) => is_compilable(q),
        Pattern::Repeated(r) => match &**r {
            Repetition::ZeroOrOnce(q) => is_compilable(q),
            Repetition::ZeroOrMore(q) => is_compilable(q),
            Repetition::OnceOrMore(q) => is_compilable(q),
            Repetition::Specific(q, min, max) => is_compilable(q) && match max {
                Some(m) => *min <= *m,
                None => true,
            },
        },
        _ => true,
    }
}

} // verus!
