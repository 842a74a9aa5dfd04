//! The graph of a pattern has no path for anything that the pattern does not match: every path
//! from the first state to the last goes through the fragment of the pattern, and what it
//! consumes there is what the pattern matches.

use crate::compile::{
    compilable, compiled, empty_state, forked, fragment_ok, joined, lemma_lower_alternate_ok,
    lemma_lower_concat_ok, lemma_lower_item_ok, lemma_lower_ok, lemma_lower_specific_ok, lower,
    lower_alternate, lower_concat, lower_item, lower_repetition, lower_specific, nothing,
    once_or_more_of,
    patch_all, single, specific_items, submatch_of, zero_or_more_of, zero_or_once_of, Fragment,
};
use crate::captures::{match_start, search_reports_longest};
use crate::equivalence::optimize_keeps_matches;
use crate::optimize::optimized;
use crate::language::{
    cut, fires, graph_accepts_matches, kind_matches, lemma_matches_bounds, matches_times,
    pattern_matches, repetition_matches, sequence_matches, taken, times,
};
use crate::matching::{pass_from, searched, seed};
use crate::matcher::MatcherKind;
use crate::reach::{
    accepts_to, is_path, leads_to, pass_finds_longest, place_of, reachable, step_ok,
    Place,
};
use crate::repr::{AnchorLocation, PatternView, RepetitionView};
use crate::state::{closed_state, StateView, Submatch};
use vstd::prelude::*;

verus! {

/// A thread can go from each place of the list to the next in one step.
pub open spec fn walk(g: Seq<StateView>, s: Seq<char>, path: Seq<Place>) -> bool {
    forall|i: int| 0 <= i < path.len() - 1 ==> step_ok(g, s, #[trigger] path[i], path[i + 1])
}

/// The index `k` is one of the states from `lo` up to `hi`.
pub open spec fn inside(k: nat, lo: nat, hi: nat) -> bool {
    lo <= k < hi
}

/// From the index `a` up to the index `b` the path stays among the states from `lo` up to `hi`,
/// and at the index `b` it has left them.
pub open spec fn run(path: Seq<Place>, a: int, b: int, lo: nat, hi: nat) -> bool {
    &&& 0 <= a < b < path.len()
    &&& forall|i: int| a <= i < b ==> inside((#[trigger] path[i]).node, lo, hi)
    &&& !inside(path[b].node, lo, hi)
}

/// The fragment `f`, whose states begin at the index `lo`, lies in the graph `graph`: the
/// states of the fragment have their matchers there, and lead nowhere but where they lead in
/// the fragment, except that a loose end may lead out of the fragment.
pub open spec fn within(f: Fragment, lo: nat, graph: Seq<StateView>) -> bool {
    &&& f.graph.len() <= graph.len()
    &&& forall|k: int|
        lo <= k < f.graph.len() ==> (#[trigger] graph[k]).matcher == f.graph[k].matcher && forall|
            t: nat,
        | #[trigger]
            leads_to(graph[k], t) ==> leads_to(f.graph[k], t) || (f.loose.contains(k as nat)
                && !inside(t, lo, f.graph.len()))
}

/// Where a path leaves the states from `lo` up to `hi`: the first index after `a` at which it
/// is not among them.
proof fn first_exit(path: Seq<Place>, a: int, b: int, lo: nat, hi: nat) -> (j: int)
    requires
        0 <= a <= b < path.len(),
        inside(path[a].node, lo, hi),
        !inside(path[b].node, lo, hi),
    ensures
        a < j <= b,
        run(path, a, j, lo, hi),
    decreases b - a,
{
    if !inside(path[a + 1].node, lo, hi) {
        a + 1
    } else {
        let j = first_exit(path, a + 1, b, lo, hi);
        assert forall|i: int| a <= i < j implies inside((#[trigger] path[i]).node, lo, hi) by {
            if i > a {
                assert(inside(path[i].node, lo, hi));
            }
        }
        j
    }
}

/// A state with one more successor leads where it led, or to that successor.
proof fn lemma_patched_leads(state: StateView, next: nat, t: nat)
    requires
        leads_to(state.patched(next), t),
    ensures
        leads_to(state, t) || t == next,
{
}

/// A fragment whose loose ends got the successor `next`, outside the fragment, lies in every
/// graph in which the larger fragment lies that was built from it, if none of its states is a
/// loose end of the larger fragment. It is left for `next` only.
proof fn lemma_within_patched(
    g: Seq<StateView>,
    f: Fragment,
    base: Seq<StateView>,
    next: nat,
    r: Fragment,
    lo: nat,
    graph: Seq<StateView>,
)
    requires
        fragment_ok(g, f),
        lo <= g.len(),
        base.len() >= f.graph.len(),
        forall|k: int| g.len() <= k < f.graph.len() ==> #[trigger] base[k] == f.graph[k],
        r.graph == patch_all(base, f.loose, next),
        !inside(next, g.len(), f.graph.len()),
        forall|i: int| 0 <= i < r.loose.len() ==> !inside(#[trigger] r.loose[i], g.len(), f.graph.len()),
        within(r, lo, graph),
    ensures
        within(f, g.len(), graph),
        forall|k: int, t: nat|
            g.len() <= k < f.graph.len() && #[trigger] leads_to(graph[k], t) && !inside(
                t,
                g.len(),
                f.graph.len(),
            ) ==> t == next,
        forall|k: int| f.graph.len() <= k < base.len() ==> #[trigger] r.graph[k] == base[k],
{
    assert forall|k: int| f.graph.len() <= k < base.len() implies #[trigger] r.graph[k]
        == base[k] by {
        if f.loose.contains(k as nat) {
            let i = choose|i: int| 0 <= i < f.loose.len() && f.loose[i] == k as nat;
            assert(f.loose[i] < f.graph.len());
        }
    }
    assert forall|k: int| g.len() <= k < f.graph.len() implies (#[trigger] graph[k]).matcher
        == f.graph[k].matcher && forall|t: nat| #[trigger]
        leads_to(graph[k], t) ==> (leads_to(f.graph[k], t) || (f.loose.contains(k as nat)
            && t == next)) by {
        assert(graph[k].matcher == r.graph[k].matcher);
        assert(base[k] == f.graph[k]);
        assert forall|t: nat| #[trigger] leads_to(graph[k], t) implies (leads_to(f.graph[k], t) || (
        f.loose.contains(k as nat) && t == next)) by {
            if r.loose.contains(k as nat) {
                let i = choose|i: int| 0 <= i < r.loose.len() && r.loose[i] == k as nat;
                assert(!inside(r.loose[i], g.len(), f.graph.len()));
            }
            assert(leads_to(r.graph[k], t));
            if f.loose.contains(k as nat) {
                lemma_patched_leads(f.graph[k], next, t);
            }
        }
    }
    assert forall|k: int, t: nat|
        g.len() <= k < f.graph.len() && #[trigger] leads_to(graph[k], t) && !inside(
            t,
            g.len(),
            f.graph.len(),
        ) implies t == next by {
        assert(graph[k].matcher == f.graph[k].matcher);
        if leads_to(f.graph[k], t) {
            assert(closed_state(f.graph[k], g.len(), f.graph.len()));
        }
    }
}

/// A fragment that is a part of a larger fragment as it is, with its loose ends among the loose
/// ends of the larger one, lies in every graph in which the larger fragment lies. Where it is
/// left, the larger fragment is left.
proof fn lemma_within_part(
    g: Seq<StateView>,
    f: Fragment,
    r: Fragment,
    lo: nat,
    graph: Seq<StateView>,
)
    requires
        fragment_ok(g, f),
        lo <= g.len(),
        r.graph.len() >= f.graph.len(),
        forall|k: int| g.len() <= k < f.graph.len() ==> #[trigger] r.graph[k] == f.graph[k],
        forall|i: int|
            0 <= i < r.loose.len() && inside(#[trigger] r.loose[i], g.len(), f.graph.len())
                ==> f.loose.contains(r.loose[i]),
        within(r, lo, graph),
    ensures
        within(f, g.len(), graph),
        forall|k: int, t: nat|
            g.len() <= k < f.graph.len() && #[trigger] leads_to(graph[k], t) && !inside(
                t,
                g.len(),
                f.graph.len(),
            ) ==> !inside(t, lo, r.graph.len()),
{
    assert forall|k: int| g.len() <= k < f.graph.len() implies (#[trigger] graph[k]).matcher
        == f.graph[k].matcher && forall|t: nat| #[trigger]
        leads_to(graph[k], t) ==> (leads_to(f.graph[k], t) || (f.loose.contains(k as nat)
            && !inside(t, lo, r.graph.len()))) by {
        assert(graph[k].matcher == r.graph[k].matcher);
        assert forall|t: nat| #[trigger] leads_to(graph[k], t) implies (leads_to(f.graph[k], t) || (
        f.loose.contains(k as nat) && !inside(t, lo, r.graph.len()))) by {
            if !leads_to(r.graph[k], t) {
                assert(r.loose.contains(k as nat));
                let i = choose|i: int| 0 <= i < r.loose.len() && r.loose[i] == k as nat;
                assert(f.loose.contains(r.loose[i]));
            }
        }
    }
    assert forall|k: int, t: nat|
        g.len() <= k < f.graph.len() && #[trigger] leads_to(graph[k], t) && !inside(
            t,
            g.len(),
            f.graph.len(),
        ) implies !inside(t, lo, r.graph.len()) by {
        assert(graph[k].matcher == f.graph[k].matcher);
        if leads_to(f.graph[k], t) {
            assert(closed_state(f.graph[k], g.len(), f.graph.len()));
        }
    }
}

/// What a step of a path says of the state that it leaves.
proof fn lemma_step(graph: Seq<StateView>, s: Seq<char>, path: Seq<Place>, i: int)
    requires
        walk(graph, s, path),
        0 <= i < path.len() - 1,
    ensures
        path[i].node < graph.len(),
        fires(graph[path[i].node as int], s, path[i].pos, path[i + 1].pos),
        leads_to(graph[path[i].node as int], path[i + 1].node),
{
    assert(step_ok(graph, s, path[i], path[i + 1]));
}

/// A state of a fragment that has no matcher and is no loose end leads, in a graph in which
/// the fragment lies, where it leads in the fragment, and consumes nothing.
proof fn lemma_inner_step(
    r: Fragment,
    lo: nat,
    graph: Seq<StateView>,
    s: Seq<char>,
    path: Seq<Place>,
    i: int,
)
    requires
        within(r, lo, graph),
        walk(graph, s, path),
        0 <= i < path.len() - 1,
        inside(path[i].node, lo, r.graph.len()),
        !r.loose.contains(path[i].node),
        r.graph[path[i].node as int].matcher is None,
    ensures
        leads_to(r.graph[path[i].node as int], path[i + 1].node),
        path[i + 1].pos == path[i].pos,
        path[i].pos <= s.len(),
{
    lemma_step(graph, s, path, i);
    let k = path[i].node as int;
    assert(graph[k].matcher == r.graph[k].matcher);
    assert(leads_to(graph[k], path[i + 1].node));
}

/// A loose end of a fragment that has no matcher leads, in a graph in which the fragment lies,
/// where it leads in the fragment or out of the fragment, and consumes nothing.
proof fn lemma_loose_step(
    r: Fragment,
    lo: nat,
    graph: Seq<StateView>,
    s: Seq<char>,
    path: Seq<Place>,
    i: int,
)
    requires
        within(r, lo, graph),
        walk(graph, s, path),
        0 <= i < path.len() - 1,
        inside(path[i].node, lo, r.graph.len()),
        r.graph[path[i].node as int].matcher is None,
    ensures
        leads_to(r.graph[path[i].node as int], path[i + 1].node) || !inside(
            path[i + 1].node,
            lo,
            r.graph.len(),
        ),
        path[i + 1].pos == path[i].pos,
        path[i].pos <= s.len(),
{
    lemma_step(graph, s, path, i);
    let k = path[i].node as int;
    assert(graph[k].matcher == r.graph[k].matcher);
    assert(leads_to(graph[k], path[i + 1].node));
}

/// Where a run through a part of a fragment ends, in a graph in which the part is left for
/// `next` only: at `next`.
proof fn lemma_run_ends(
    graph: Seq<StateView>,
    s: Seq<char>,
    path: Seq<Place>,
    a: int,
    j: int,
    lo: nat,
    hi: nat,
    next: nat,
)
    requires
        walk(graph, s, path),
        run(path, a, j, lo, hi),
        forall|k: int, t: nat|
            lo <= k < hi && #[trigger] leads_to(graph[k], t) && !inside(t, lo, hi) ==> t == next,
    ensures
        path[j].node == next,
{
    lemma_step(graph, s, path, j - 1);
    assert(inside(path[j - 1].node, lo, hi));
    assert(leads_to(graph[path[j - 1].node as int], path[j].node));
}

/// Where a run through a part of a fragment ends, in a graph in which where the part is left
/// the fragment is left: out of the fragment.
proof fn lemma_run_leaves(
    graph: Seq<StateView>,
    s: Seq<char>,
    path: Seq<Place>,
    a: int,
    j: int,
    lo: nat,
    hi: nat,
    outer_lo: nat,
    outer_hi: nat,
)
    requires
        walk(graph, s, path),
        run(path, a, j, lo, hi),
        forall|k: int, t: nat|
            lo <= k < hi && #[trigger] leads_to(graph[k], t) && !inside(t, lo, hi) ==> !inside(
                t,
                outer_lo,
                outer_hi,
            ),
    ensures
        !inside(path[j].node, outer_lo, outer_hi),
{
    lemma_step(graph, s, path, j - 1);
    assert(inside(path[j - 1].node, lo, hi));
    assert(leads_to(graph[path[j - 1].node as int], path[j].node));
}

/// The pattern matches once where it matches.
proof fn lemma_times_one(q: PatternView, s: Seq<char>, from: nat, to: nat)
    requires
        pattern_matches(q, s, from, to),
    ensures
        matches_times(q, 1, s, from, to),
{
    lemma_matches_bounds(q, s, from, to);
    assert(matches_times(q, 0, s, from, from));
    assert(cut(from) && matches_times(q, (1 - 1) as nat, s, from, from) && pattern_matches(
        q,
        s,
        from,
        to,
    ));
}

/// The pattern matches `a + b` times in a row where it matches `a` times and then `b` times.
proof fn lemma_times_join(
    q: PatternView,
    a: nat,
    b: nat,
    s: Seq<char>,
    from: nat,
    mid: nat,
    to: nat,
)
    requires
        matches_times(q, a, s, from, mid),
        matches_times(q, b, s, mid, to),
    ensures
        matches_times(q, a + b, s, from, to),
    decreases b,
{
    if b > 0 {
        let last = choose|last: nat|
            #[trigger] cut(last) && matches_times(q, (b - 1) as nat, s, mid, last)
                && pattern_matches(q, s, last, to);
        lemma_times_join(q, a, (b - 1) as nat, s, from, mid, last);
        assert(cut(last) && matches_times(q, (a + b - 1) as nat, s, from, last)
            && pattern_matches(q, s, last, to));
    }
}

/// A run through a single state with a matcher is one step, over what the matcher matches.
proof fn lemma_single_sound(
    g: Seq<StateView>,
    kind: MatcherKind,
    graph: Seq<StateView>,
    s: Seq<char>,
    path: Seq<Place>,
    a: int,
    b: int,
)
    requires
        within(single(g, kind), g.len(), graph),
        walk(graph, s, path),
        run(path, a, b, g.len(), single(g, kind).graph.len()),
        path[a].node == single(g, kind).entry,
    ensures
        kind_matches(kind, s, path[a].pos, path[b].pos),
{
    let f = single(g, kind);
    lemma_step(graph, s, path, a);
    assert(graph[g.len() as int].matcher == f.graph[g.len() as int].matcher);
    assert(leads_to(graph[g.len() as int], path[a + 1].node));
    assert(!leads_to(f.graph[g.len() as int], path[a + 1].node));
    if a + 1 < b {
        assert(inside(path[a + 1].node, g.len(), f.graph.len()));
    }
}

/// A run through a state that consumes nothing is one step that consumes nothing.
proof fn lemma_nothing_sound(
    g: Seq<StateView>,
    graph: Seq<StateView>,
    s: Seq<char>,
    path: Seq<Place>,
    a: int,
    b: int,
)
    requires
        within(nothing(g), g.len(), graph),
        walk(graph, s, path),
        run(path, a, b, g.len(), nothing(g).graph.len()),
        path[a].node == nothing(g).entry,
    ensures
        path[b].pos == path[a].pos,
        path[b].pos <= s.len(),
{
    let f = nothing(g);
    lemma_step(graph, s, path, a);
    assert(graph[g.len() as int].matcher == f.graph[g.len() as int].matcher);
    assert(leads_to(graph[g.len() as int], path[a + 1].node));
    assert(!leads_to(f.graph[g.len() as int], path[a + 1].node));
    if a + 1 < b {
        assert(inside(path[a + 1].node, g.len(), f.graph.len()));
    }
}

/// A run through the fragment of a pattern, from its entry to where it is left, consumes what
/// the pattern matches.
pub proof fn lemma_sound(
    p: PatternView,
    g: Seq<StateView>,
    graph: Seq<StateView>,
    s: Seq<char>,
    path: Seq<Place>,
    a: int,
    b: int,
)
    requires
        compilable(p),
        within(lower(p, g), g.len(), graph),
        walk(graph, s, path),
        run(path, a, b, g.len(), lower(p, g).graph.len()),
        path[a].node == lower(p, g).entry,
    ensures
        pattern_matches(p, s, path[a].pos, path[b].pos),
    decreases p, 0nat, 0nat,
{
    match p {
        PatternView::Concat(ps) => {
            lemma_concat_sound(ps, ps.len(), g, graph, s, path, a, b);
        },
        PatternView::Alternate(ps) => {
            lemma_alternate_sound(ps, g, graph, s, path, a, b);
        },
        PatternView::Submatch(q) => {
            lemma_submatch_sound(*q, g, graph, s, path, a, b);
        },
        PatternView::Repeated(r) => {
            lemma_repetition_sound(*r, g, graph, s, path, a, b);
        },
        PatternView::Char(c) => {
            lemma_single_sound(g, MatcherKind::Char(c), graph, s, path, a, b);
        },
        PatternView::Any => {
            lemma_single_sound(g, MatcherKind::Any, graph, s, path, a, b);
        },
        PatternView::Str(chars) => {
            lemma_single_sound(g, MatcherKind::Str(chars), graph, s, path, a, b);
        },
        PatternView::CharRange(lo, hi) => {
            lemma_single_sound(g, MatcherKind::CharRange(lo, hi), graph, s, path, a, b);
        },
        PatternView::CharSet(set) => {
            lemma_single_sound(g, MatcherKind::CharSet(set), graph, s, path, a, b);
        },
        PatternView::Anchor(AnchorLocation::Begin) => {
            lemma_single_sound(g, MatcherKind::AnchorBegin, graph, s, path, a, b);
        },
        PatternView::Anchor(AnchorLocation::End) => {
            lemma_single_sound(g, MatcherKind::AnchorEnd, graph, s, path, a, b);
        },
    }
}

proof fn lemma_submatch_sound(
    q: PatternView,
    g: Seq<StateView>,
    graph: Seq<StateView>,
    s: Seq<char>,
    path: Seq<Place>,
    a: int,
    b: int,
)
    requires
        compilable(q),
        within(submatch_of(lower(q, g)), g.len(), graph),
        walk(graph, s, path),
        run(path, a, b, g.len(), submatch_of(lower(q, g)).graph.len()),
        path[a].node == submatch_of(lower(q, g)).entry,
    ensures
        pattern_matches(q, s, path[a].pos, path[b].pos),
    decreases q, 1nat, 0nat,
{
    let f = lower(q, g);
    let r = submatch_of(f);
    let lo = g.len();
    let hq = f.graph.len();
    let before = hq;
    let after = hq + 1;
    let base = f.graph.push(empty_state(Some(f.entry), None, Some(Submatch::Start))).push(
        empty_state(None, None, Some(Submatch::End)),
    );
    lemma_lower_ok(q, g);
    assert(r.loose[0] == after);
    lemma_within_patched(g, f, base, after, r, lo, graph);
    assert(r.graph[before as int] == base[before as int]);
    assert(r.graph[after as int] == base[after as int]);
    assert(!r.loose.contains(before)) by {
        if r.loose.contains(before) {
            let i = choose|i: int| 0 <= i < r.loose.len() && r.loose[i] == before;
        }
    }
    lemma_inner_step(r, lo, graph, s, path, a);
    assert(path[a + 1].node == f.entry);
    let j = first_exit(path, a + 1, b, lo, hq);
    lemma_sound(q, g, graph, s, path, a + 1, j);
    lemma_run_ends(graph, s, path, a + 1, j, lo, hq, after);
    lemma_loose_step(r, lo, graph, s, path, j);
    if j + 1 < b {
        assert(inside(path[j + 1].node, lo, r.graph.len()));
    }
}

/// A run through an optional fragment consumes nothing, or what the pattern matches.
proof fn lemma_once_sound(
    q: PatternView,
    g: Seq<StateView>,
    graph: Seq<StateView>,
    s: Seq<char>,
    path: Seq<Place>,
    a: int,
    b: int,
)
    requires
        compilable(q),
        within(zero_or_once_of(lower(q, g)), g.len(), graph),
        walk(graph, s, path),
        run(path, a, b, g.len(), zero_or_once_of(lower(q, g)).graph.len()),
        path[a].node == zero_or_once_of(lower(q, g)).entry,
    ensures
        (path[b].pos == path[a].pos && path[b].pos <= s.len()) || pattern_matches(
            q,
            s,
            path[a].pos,
            path[b].pos,
        ),
    decreases q, 1nat, 0nat,
{
    let f = lower(q, g);
    let r = zero_or_once_of(f);
    let lo = g.len();
    let hq = f.graph.len();
    let after = hq;
    let before = hq + 1;
    let base = f.graph.push(empty_state(None, None, None)).push(
        empty_state(Some(f.entry), Some(after), None),
    );
    lemma_lower_ok(q, g);
    assert(r.loose[0] == after);
    lemma_within_patched(g, f, base, after, r, lo, graph);
    assert(r.graph[before as int] == base[before as int]);
    assert(r.graph[after as int] == base[after as int]);
    assert(!r.loose.contains(before)) by {
        if r.loose.contains(before) {
            let i = choose|i: int| 0 <= i < r.loose.len() && r.loose[i] == before;
        }
    }
    lemma_inner_step(r, lo, graph, s, path, a);
    if path[a + 1].node == after {
        lemma_loose_step(r, lo, graph, s, path, a + 1);
        if a + 2 < b {
            assert(inside(path[a + 2].node, lo, r.graph.len()));
        }
    } else {
        assert(path[a + 1].node == f.entry);
        let j = first_exit(path, a + 1, b, lo, hq);
        lemma_sound(q, g, graph, s, path, a + 1, j);
        lemma_run_ends(graph, s, path, a + 1, j, lo, hq, after);
        lemma_loose_step(r, lo, graph, s, path, j);
        if j + 1 < b {
            assert(inside(path[j + 1].node, lo, r.graph.len()));
        }
    }
}

/// A run through a fragment that is repeated any number of times, from its entry or from the
/// state after the fragment, consumes what the pattern matches some number of times in a row.
proof fn lemma_star_sound(
    q: PatternView,
    g: Seq<StateView>,
    graph: Seq<StateView>,
    s: Seq<char>,
    path: Seq<Place>,
    a: int,
    b: int,
    at_after: bool,
)
    requires
        compilable(q),
        within(zero_or_more_of(lower(q, g)), g.len(), graph),
        walk(graph, s, path),
        run(path, a, b, g.len(), zero_or_more_of(lower(q, g)).graph.len()),
        path[a].node == if at_after {
            lower(q, g).graph.len() + 1
        } else {
            lower(q, g).graph.len()
        },
    ensures
        exists|k: nat| #[trigger] times(k) && matches_times(q, k, s, path[a].pos, path[b].pos),
    decreases q, 1nat, b - a,
{
    let f = lower(q, g);
    let r = zero_or_more_of(f);
    let lo = g.len();
    let hq = f.graph.len();
    let before = hq;
    let after = hq + 1;
    let base = f.graph.push(empty_state(Some(f.entry), Some(after), None)).push(
        empty_state(Some(f.entry), None, None),
    );
    lemma_lower_ok(q, g);
    assert(r.loose[0] == after);
    lemma_within_patched(g, f, base, after, r, lo, graph);
    assert(r.graph[before as int] == base[before as int]);
    assert(r.graph[after as int] == base[after as int]);
    assert(!r.loose.contains(before)) by {
        if r.loose.contains(before) {
            let i = choose|i: int| 0 <= i < r.loose.len() && r.loose[i] == before;
        }
    }
    let from = path[a].pos;
    let to = path[b].pos;
    lemma_loose_step(r, lo, graph, s, path, a);
    if !at_after {
        lemma_inner_step(r, lo, graph, s, path, a);
    }
    if !inside(path[a + 1].node, lo, r.graph.len()) {
        // The state after the fragment is left.
        assert(a + 1 == b);
        assert(times(0) && matches_times(q, 0, s, from, to));
    } else if path[a + 1].node == after {
        // The fragment is passed over.
        lemma_star_sound(q, g, graph, s, path, a + 1, b, true);
    } else {
        // The fragment is entered.
        assert(path[a + 1].node == f.entry);
        let j = first_exit(path, a + 1, b, lo, hq);
        lemma_sound(q, g, graph, s, path, a + 1, j);
        lemma_run_ends(graph, s, path, a + 1, j, lo, hq, after);
        lemma_star_sound(q, g, graph, s, path, j, b, true);
        let mid = path[j].pos;
        let k = choose|k: nat| #[trigger] times(k) && matches_times(q, k, s, mid, to);
        lemma_times_one(q, s, from, mid);
        lemma_times_join(q, 1, k, s, from, mid, to);
        assert(times(1 + k) && matches_times(q, 1 + k, s, from, to));
    }
}

/// A run through a fragment that is repeated once or more consumes what the pattern matches
/// once or more in a row.
proof fn lemma_plus_sound(
    q: PatternView,
    g: Seq<StateView>,
    graph: Seq<StateView>,
    s: Seq<char>,
    path: Seq<Place>,
    a: int,
    b: int,
)
    requires
        compilable(q),
        within(once_or_more_of(lower(q, g)), g.len(), graph),
        walk(graph, s, path),
        run(path, a, b, g.len(), once_or_more_of(lower(q, g)).graph.len()),
        path[a].node == lower(q, g).entry,
    ensures
        exists|k: nat|
            #[trigger] times(k) && k >= 1 && matches_times(q, k, s, path[a].pos, path[b].pos),
    decreases q, 1nat, b - a,
{
    let f = lower(q, g);
    let r = once_or_more_of(f);
    let lo = g.len();
    let hq = f.graph.len();
    let after = hq;
    let base = f.graph.push(empty_state(Some(f.entry), None, None));
    lemma_lower_ok(q, g);
    assert(r.loose[0] == after);
    lemma_within_patched(g, f, base, after, r, lo, graph);
    assert(r.graph[after as int] == base[after as int]);
    let from = path[a].pos;
    let to = path[b].pos;
    let j = first_exit(path, a, b, lo, hq);
    lemma_sound(q, g, graph, s, path, a, j);
    lemma_run_ends(graph, s, path, a, j, lo, hq, after);
    let mid = path[j].pos;
    lemma_times_one(q, s, from, mid);
    lemma_loose_step(r, lo, graph, s, path, j);
    if !inside(path[j + 1].node, lo, r.graph.len()) {
        assert(j + 1 == b);
        assert(times(1) && matches_times(q, 1, s, from, to));
    } else {
        assert(path[j + 1].node == f.entry);
        lemma_plus_sound(q, g, graph, s, path, j + 1, b);
        let k = choose|k: nat| #[trigger] times(k) && k >= 1 && matches_times(q, k, s, mid, to);
        lemma_times_join(q, 1, k, s, from, mid, to);
        assert(times(1 + k) && matches_times(q, 1 + k, s, from, to));
    }
}

/// What lies in a graph of two fragments one after the other: both fragments, and the first
/// is left for the entry of the second only, the second for where the pair is left.
proof fn lemma_joined_within(
    g: Seq<StateView>,
    first: Fragment,
    second: Fragment,
    graph: Seq<StateView>,
)
    requires
        fragment_ok(g, first),
        fragment_ok(first.graph, second),
        within(joined(first, second), g.len(), graph),
    ensures
        within(first, g.len(), graph),
        within(second, first.graph.len(), graph),
        forall|k: int, t: nat|
            g.len() <= k < first.graph.len() && #[trigger] leads_to(graph[k], t) && !inside(
                t,
                g.len(),
                first.graph.len(),
            ) ==> t == second.entry,
        forall|k: int, t: nat|
            first.graph.len() <= k < second.graph.len() && #[trigger] leads_to(graph[k], t)
                && !inside(t, first.graph.len(), second.graph.len()) ==> !inside(
                t,
                g.len(),
                second.graph.len(),
            ),
{
    let r = joined(first, second);
    assert forall|i: int| 0 <= i < r.loose.len() implies !inside(
        #[trigger] r.loose[i],
        g.len(),
        first.graph.len(),
    ) by {
        assert(first.graph.len() <= second.loose[i]);
    }
    assert forall|k: int| g.len() <= k < first.graph.len() implies #[trigger] second.graph[k]
        == first.graph[k] by {}
    lemma_within_patched(g, first, second.graph, second.entry, r, g.len(), graph);
    assert forall|i: int|
        0 <= i < r.loose.len() && inside(
            #[trigger] r.loose[i],
            first.graph.len(),
            second.graph.len(),
        ) implies second.loose.contains(r.loose[i]) by {
        assert(second.loose[i] == r.loose[i]);
    }
    lemma_within_part(first.graph, second, r, g.len(), graph);
}

/// A run through two fragments one after the other is a run through the first, to the entry
/// of the second, and a run through the second.
proof fn lemma_joined_split(
    g: Seq<StateView>,
    first: Fragment,
    second: Fragment,
    graph: Seq<StateView>,
    s: Seq<char>,
    path: Seq<Place>,
    a: int,
    b: int,
) -> (j: int)
    requires
        fragment_ok(g, first),
        fragment_ok(first.graph, second),
        within(joined(first, second), g.len(), graph),
        walk(graph, s, path),
        run(path, a, b, g.len(), joined(first, second).graph.len()),
        path[a].node == first.entry,
    ensures
        within(first, g.len(), graph),
        within(second, first.graph.len(), graph),
        run(path, a, j, g.len(), first.graph.len()),
        run(path, j, b, first.graph.len(), second.graph.len()),
        path[j].node == second.entry,
{
    lemma_joined_within(g, first, second, graph);
    let lo = g.len();
    let mid = first.graph.len();
    let hi = second.graph.len();
    let j = first_exit(path, a, b, lo, mid);
    lemma_run_ends(graph, s, path, a, j, lo, mid, second.entry);
    let end = first_exit(path, j, b, mid, hi);
    lemma_run_leaves(graph, s, path, j, end, mid, hi, lo, hi);
    if end < b {
        assert(inside(path[end].node, lo, hi));
    }
    j
}

proof fn lemma_concat_sound(
    ps: Seq<PatternView>,
    n: nat,
    g: Seq<StateView>,
    graph: Seq<StateView>,
    s: Seq<char>,
    path: Seq<Place>,
    a: int,
    b: int,
)
    requires
        1 <= n <= ps.len(),
        forall|i: int| 0 <= i < ps.len() ==> compilable(#[trigger] ps[i]),
        within(lower_concat(ps, n, g), g.len(), graph),
        walk(graph, s, path),
        run(path, a, b, g.len(), lower_concat(ps, n, g).graph.len()),
        path[a].node == lower_concat(ps, n, g).entry,
    ensures
        sequence_matches(ps, n, s, path[a].pos, path[b].pos),
    decreases ps, n, 0nat,
{
    let from = path[a].pos;
    let to = path[b].pos;
    if n == 1 {
        lemma_sound(ps[0], g, graph, s, path, a, b);
        lemma_matches_bounds(ps[0], s, from, to);
        assert(sequence_matches(ps, 0, s, from, from));
        assert(cut(from) && sequence_matches(ps, (n - 1) as nat, s, from, from)
            && pattern_matches(ps[n - 1], s, from, to));
    } else {
        let first = lower_concat(ps, (n - 1) as nat, g);
        let second = lower(ps[n - 1], first.graph);
        lemma_lower_concat_ok(ps, (n - 1) as nat, g);
        lemma_lower_ok(ps[n - 1], first.graph);
        let j = lemma_joined_split(g, first, second, graph, s, path, a, b);
        lemma_concat_sound(ps, (n - 1) as nat, g, graph, s, path, a, j);
        lemma_sound(ps[n - 1], first.graph, graph, s, path, j, b);
        let mid = path[j].pos;
        assert(cut(mid) && sequence_matches(ps, (n - 1) as nat, s, from, mid) && pattern_matches(
            ps[n - 1],
            s,
            mid,
            to,
        ));
    }
}

proof fn lemma_alternate_sound(
    ps: Seq<PatternView>,
    g: Seq<StateView>,
    graph: Seq<StateView>,
    s: Seq<char>,
    path: Seq<Place>,
    a: int,
    b: int,
)
    requires
        forall|i: int| 0 <= i < ps.len() ==> compilable(#[trigger] ps[i]),
        within(lower_alternate(ps, g), g.len(), graph),
        walk(graph, s, path),
        run(path, a, b, g.len(), lower_alternate(ps, g).graph.len()),
        path[a].node == lower_alternate(ps, g).entry,
    ensures
        exists|i: int|
            #[trigger] taken(i) && 0 <= i < ps.len() && pattern_matches(
                ps[i],
                s,
                path[a].pos,
                path[b].pos,
            ),
    decreases ps, 0nat, 0nat,
{
    let from = path[a].pos;
    let to = path[b].pos;
    if ps.len() == 0 {
        // No thread gets past the state whose matcher accepts nothing.
        lemma_single_sound(g, crate::compile::never(), graph, s, path, a, b);
        assert(false);
    } else if ps.len() == 1 {
        lemma_sound(ps[0], g, graph, s, path, a, b);
        assert(taken(0) && pattern_matches(ps[0], s, from, to));
    } else {
        let mid = (ps.len() / 2) as int;
        vstd::seq::axiom_seq_subrange_decreases(ps, 0, mid);
        vstd::seq::axiom_seq_subrange_decreases(ps, mid, ps.len() as int);
        let left_ps = ps.subrange(0, mid);
        let right_ps = ps.subrange(mid, ps.len() as int);
        assert forall|j: int| 0 <= j < left_ps.len() implies compilable(#[trigger] left_ps[j]) by {
            assert(left_ps[j] == ps[j]);
        }
        assert forall|j: int| 0 <= j < right_ps.len() implies compilable(
            #[trigger] right_ps[j],
        ) by {
            assert(right_ps[j] == ps[mid + j]);
        }
        lemma_lower_alternate_ok(left_ps, g);
        let left = lower_alternate(left_ps, g);
        lemma_lower_alternate_ok(right_ps, left.graph);
        let right = lower_alternate(right_ps, left.graph);
        let r = forked(left, right);
        let lo = g.len();
        let fork = right.graph.len();
        assert forall|i: int|
            0 <= i < r.loose.len() && inside(#[trigger] r.loose[i], lo, left.graph.len())
                implies left.loose.contains(r.loose[i]) by {
            if i < left.loose.len() {
                assert(left.loose[i] == r.loose[i]);
            } else {
                assert(left.graph.len() <= right.loose[i - left.loose.len()]);
            }
        }
        assert forall|k: int| lo <= k < left.graph.len() implies #[trigger] r.graph[k]
            == left.graph[k] by {
            assert(right.graph[k] == left.graph[k]);
        }
        lemma_within_part(g, left, r, lo, graph);
        assert forall|i: int|
            0 <= i < r.loose.len() && inside(
                #[trigger] r.loose[i],
                left.graph.len(),
                right.graph.len(),
            ) implies right.loose.contains(r.loose[i]) by {
            if i < left.loose.len() {
                assert(left.loose[i] < left.graph.len());
            } else {
                assert(right.loose[i - left.loose.len()] == r.loose[i]);
            }
        }
        lemma_within_part(left.graph, right, r, lo, graph);
        assert(!r.loose.contains(fork)) by {
            if r.loose.contains(fork) {
                let i = choose|i: int| 0 <= i < r.loose.len() && r.loose[i] == fork;
                if i < left.loose.len() {
                    assert(left.loose[i] < left.graph.len());
                } else {
                    assert(right.loose[i - left.loose.len()] < right.graph.len());
                }
            }
        }
        lemma_inner_step(r, lo, graph, s, path, a);
        if path[a + 1].node == left.entry {
            let end = first_exit(path, a + 1, b, lo, left.graph.len());
            lemma_run_leaves(graph, s, path, a + 1, end, lo, left.graph.len(), lo, r.graph.len());
            if end < b {
                assert(inside(path[end].node, lo, r.graph.len()));
            }
            lemma_alternate_sound(left_ps, g, graph, s, path, a + 1, b);
            let i = choose|i: int|
                #[trigger] taken(i) && 0 <= i < left_ps.len() && pattern_matches(
                    left_ps[i],
                    s,
                    from,
                    to,
                );
            assert(left_ps[i] == ps[i]);
            assert(taken(i) && pattern_matches(ps[i], s, from, to));
        } else {
            assert(path[a + 1].node == right.entry);
            let end = first_exit(path, a + 1, b, left.graph.len(), right.graph.len());
            lemma_run_leaves(
                graph,
                s,
                path,
                a + 1,
                end,
                left.graph.len(),
                right.graph.len(),
                lo,
                r.graph.len(),
            );
            if end < b {
                assert(inside(path[end].node, lo, r.graph.len()));
            }
            lemma_alternate_sound(right_ps, left.graph, graph, s, path, a + 1, b);
            let i = choose|i: int|
                #[trigger] taken(i) && 0 <= i < right_ps.len() && pattern_matches(
                    right_ps[i],
                    s,
                    from,
                    to,
                );
            assert(right_ps[i] == ps[mid + i]);
            assert(taken(mid + i) && pattern_matches(ps[mid + i], s, from, to));
        }
    }
}

proof fn lemma_repetition_sound(
    r: RepetitionView,
    g: Seq<StateView>,
    graph: Seq<StateView>,
    s: Seq<char>,
    path: Seq<Place>,
    a: int,
    b: int,
)
    requires
        compilable(PatternView::Repeated(Box::new(r))),
        within(lower_repetition(r, g), g.len(), graph),
        walk(graph, s, path),
        run(path, a, b, g.len(), lower_repetition(r, g).graph.len()),
        path[a].node == lower_repetition(r, g).entry,
    ensures
        repetition_matches(r, s, path[a].pos, path[b].pos),
    decreases r, 0nat, 0nat,
{
    let from = path[a].pos;
    let to = path[b].pos;
    match r {
        RepetitionView::ZeroOrOnce(q) => {
            lemma_once_sound(q, g, graph, s, path, a, b);
        },
        RepetitionView::ZeroOrMore(q) => {
            lemma_star_sound(q, g, graph, s, path, a, b, false);
        },
        RepetitionView::OnceOrMore(q) => {
            lemma_plus_sound(q, g, graph, s, path, a, b);
        },
        RepetitionView::Specific(q, min, max) => {
            let n = specific_items(min, max);
            if n == 0 {
                lemma_nothing_sound(g, graph, s, path, a, b);
                assert(times(0) && min <= 0 && (max is Some ==> 0 <= max->0) && matches_times(
                    q,
                    0,
                    s,
                    from,
                    to,
                ));
            } else {
                lemma_specific_sound(q, min, max, n, g, graph, s, path, a, b);
                let k = choose|k: nat|
                    #[trigger] times(k) && matches_times(q, k, s, from, to) && counted(
                        min,
                        max,
                        n,
                        k,
                    );
                assert(times(k) && min <= k && (max is Some ==> k <= max->0) && matches_times(
                    q,
                    k,
                    s,
                    from,
                    to,
                ));
            }
        },
    }
}

/// How often the first `n` items of a counted repetition let the pattern match: as many times
/// as there are items while all of them are copies; no fewer than `min` times, and no more
/// than there are items where the further ones are optional copies.
pub open spec fn counted(min: nat, max: Option<nat>, n: nat, k: nat) -> bool {
    &&& n <= min ==> k == n
    &&& n > min ==> min <= k
    &&& n > min && max is Some ==> k <= n
}

/// A run through one item of a counted repetition consumes what the pattern matches once, if
/// the item is a copy; at most once, if it is an optional copy; and any number of times else.
proof fn lemma_item_sound(
    q: PatternView,
    min: nat,
    max: Option<nat>,
    index: nat,
    g: Seq<StateView>,
    graph: Seq<StateView>,
    s: Seq<char>,
    path: Seq<Place>,
    a: int,
    b: int,
)
    requires
        compilable(q),
        within(lower_item(q, min, max, index, g), g.len(), graph),
        walk(graph, s, path),
        run(path, a, b, g.len(), lower_item(q, min, max, index, g).graph.len()),
        path[a].node == lower_item(q, min, max, index, g).entry,
    ensures
        exists|k: nat|
            #[trigger] times(k) && matches_times(q, k, s, path[a].pos, path[b].pos) && (index < min
                ==> k == 1) && (index >= min && max is Some ==> k <= 1),
    decreases q, 2nat, 0nat,
{
    let from = path[a].pos;
    let to = path[b].pos;
    if index < min {
        lemma_sound(q, g, graph, s, path, a, b);
        lemma_times_one(q, s, from, to);
        assert(times(1) && matches_times(q, 1, s, from, to));
    } else if max is Some {
        lemma_once_sound(q, g, graph, s, path, a, b);
        if pattern_matches(q, s, from, to) {
            lemma_times_one(q, s, from, to);
            assert(times(1) && matches_times(q, 1, s, from, to));
        } else {
            assert(times(0) && matches_times(q, 0, s, from, to));
        }
    } else {
        lemma_star_sound(q, g, graph, s, path, a, b, false);
    }
}

/// A run through the first `n` items of a counted repetition consumes what the pattern matches
/// as often in a row as the items allow.
proof fn lemma_specific_sound(
    q: PatternView,
    min: nat,
    max: Option<nat>,
    n: nat,
    g: Seq<StateView>,
    graph: Seq<StateView>,
    s: Seq<char>,
    path: Seq<Place>,
    a: int,
    b: int,
)
    requires
        compilable(q),
        1 <= n <= specific_items(min, max),
        within(lower_specific(q, min, max, n, g), g.len(), graph),
        walk(graph, s, path),
        run(path, a, b, g.len(), lower_specific(q, min, max, n, g).graph.len()),
        path[a].node == lower_specific(q, min, max, n, g).entry,
    ensures
        exists|k: nat|
            #[trigger] times(k) && matches_times(q, k, s, path[a].pos, path[b].pos) && counted(
                min,
                max,
                n,
                k,
            ),
    decreases q, 3nat, n,
{
    let from = path[a].pos;
    let to = path[b].pos;
    if n == 1 {
        lemma_item_sound(q, min, max, 0, g, graph, s, path, a, b);
        let k = choose|k: nat|
            #[trigger] times(k) && matches_times(q, k, s, from, to) && (0 < min ==> k == 1) && (0
                >= min && max is Some ==> k <= 1);
        assert(times(k) && matches_times(q, k, s, from, to) && counted(min, max, n, k));
    } else {
        let first = lower_specific(q, min, max, (n - 1) as nat, g);
        let second = lower_item(q, min, max, (n - 1) as nat, first.graph);
        lemma_lower_specific_ok(q, min, max, (n - 1) as nat, g);
        lemma_lower_item_ok(q, min, max, (n - 1) as nat, first.graph);
        let j = lemma_joined_split(g, first, second, graph, s, path, a, b);
        lemma_specific_sound(q, min, max, (n - 1) as nat, g, graph, s, path, a, j);
        lemma_item_sound(q, min, max, (n - 1) as nat, first.graph, graph, s, path, j, b);
        let mid = path[j].pos;
        let k1 = choose|k: nat|
            #[trigger] times(k) && matches_times(q, k, s, from, mid) && counted(
                min,
                max,
                (n - 1) as nat,
                k,
            );
        let k2 = choose|k: nat|
            #[trigger] times(k) && matches_times(q, k, s, mid, to) && (((n - 1) as nat) < min
                ==> k == 1) && (((n - 1) as nat) >= min && max is Some ==> k <= 1);
        lemma_times_join(q, k1, k2, s, from, mid, to);
        assert(times(k1 + k2) && matches_times(q, k1 + k2, s, from, to) && counted(
            min,
            max,
            n,
            k1 + k2,
        ));
    }
}

/// The graph has no path for what the pattern does not match: where a path through the graph
/// of a pattern leads from the first state at `from` to the last state at `to`, the pattern
/// matches the subject from `from` up to `to`.
pub proof fn graph_accepts_only_matches(p: PatternView, s: Seq<char>, from: nat, to: nat)
    requires
        compilable(p),
        accepts_to(compiled(p), s, Place { node: 0, pos: from }, to),
    ensures
        pattern_matches(p, s, from, to),
{
    let start = seq![empty_state(None, None, Some(Submatch::Start))];
    let f = lower(p, start);
    lemma_lower_ok(p, start);
    crate::compile::lemma_compiled_bracketed(p);
    let last = f.graph.len();
    let base = f.graph.update(0, empty_state(Some(f.entry), None, Some(Submatch::Start))).push(
        empty_state(None, None, Some(Submatch::End)),
    );
    let g = compiled(p);
    assert(g == patch_all(base, f.loose, last));
    let origin = Place { node: 0, pos: from };
    let node = choose|node: nat|
        node < g.len() && g[node as int].is_last() && #[trigger] reachable(
            g,
            s,
            origin,
            Place { node, pos: to },
        );
    let path = choose|path: Seq<Place>| is_path(g, s, origin, Place { node, pos: to }, path);
    if node < last {
        assert(g[node as int].out is Some);
    }
    assert(node == last);
    let m = path.len() - 1;
    assert(walk(g, s, path));
    assert forall|i: int| 0 <= i < f.loose.len() implies 1 <= #[trigger] f.loose[i] < last by {}
    assert(!f.loose.contains(0));
    assert(!f.loose.contains(last));
    assert(g[0] == base[0]);
    assert(g[last as int] == base[last as int]);
    // The first step leads to the entry of the pattern.
    lemma_step(g, s, path, 0);
    assert(path[1].node == f.entry);
    assert(path[1].pos == from);
    // The states of the pattern lead to each other or to the last state.
    assert forall|k: int| 1 <= k < last implies (#[trigger] g[k]).matcher == f.graph[k].matcher
        && forall|t: nat| #[trigger]
        leads_to(g[k], t) ==> leads_to(f.graph[k], t) || (f.loose.contains(k as nat) && t
            == last) by {
        assert(base[k] == f.graph[k]);
        assert forall|t: nat| #[trigger] leads_to(g[k], t) implies leads_to(f.graph[k], t) || (
        f.loose.contains(k as nat) && t == last) by {
            if f.loose.contains(k as nat) {
                lemma_patched_leads(f.graph[k], last, t);
            }
        }
    }
    assert(within(f, 1, g));
    let j = first_exit(path, 1, m, 1, last);
    lemma_sound(p, start, g, s, path, 1, j);
    lemma_step(g, s, path, j - 1);
    assert(inside(path[j - 1].node, 1, last));
    let k = path[j - 1].node as int;
    assert(leads_to(g[k], path[j].node));
    if leads_to(f.graph[k], path[j].node) {
        assert(closed_state(f.graph[k], 1, last));
    }
    assert(path[j].node == last);
    if j < m {
        lemma_step(g, s, path, j);
    }
}

/// What a pass matches is what the pattern matches. The pass over the graph of a pattern that
/// begins at the position `start` reports a match exactly if the pattern matches the subject
/// from `start` up to some position; the match that it reports ends at such a position, and at
/// the last of them.
pub proof fn pass_matches_pattern(p: PatternView, s: Seq<char>, start: nat)
    requires
        compilable(p),
        start <= s.len(),
    ensures
        pass_from(compiled(p), s, seed(s.len(), start)).matched <==> exists|to: nat|
            pattern_matches(p, s, start, to),
        pass_from(compiled(p), s, seed(s.len(), start)).matched ==> pattern_matches(
            p,
            s,
            start,
            pass_from(compiled(p), s, seed(s.len(), start)).longest,
        ),
        forall|to: nat| #[trigger]
            pattern_matches(p, s, start, to) ==> to <= pass_from(
                compiled(p),
                s,
                seed(s.len(), start),
            ).longest,
{
    let g = compiled(p);
    let t = seed(s.len(), start);
    let origin = Place { node: 0, pos: start };
    let pass = pass_from(g, s, t);
    crate::compile::lemma_compiled_bracketed(p);
    assert(place_of(t) == origin);
    pass_finds_longest(g, s, t);
    if pass.matched {
        graph_accepts_only_matches(p, s, start, pass.longest);
    }
    assert forall|to: nat| #[trigger] pattern_matches(p, s, start, to) implies pass.matched && to
        <= pass.longest by {
        graph_accepts_matches(p, s, start, to);
    }
}

/// What a search reports is a match of the pattern. Where the search over the graph of a
/// pattern finds a match, the pattern matches the subject from the position at which the
/// search found its match. If that position lies before the end of the subject, the first
/// submatch of the report begins there and ends where the pattern matches up to, and the
/// pattern matches up to no later position from there.
pub proof fn search_reports_match(p: PatternView, s: Seq<char>)
    requires
        compilable(p),
        searched(compiled(p), s, 0).0,
    ensures
        ({
            let start = match_start(compiled(p), s, 0);
            let found = searched(compiled(p), s, 0).1;
            &&& start <= s.len()
            &&& exists|to: nat| pattern_matches(p, s, start, to)
            &&& start < s.len() ==> {
                &&& found.len() > 0
                &&& found[0].0 == start
                &&& pattern_matches(p, s, start, found[0].1)
                &&& forall|to: nat| #[trigger] pattern_matches(p, s, start, to) ==> to <= found[0].1
            }
        }),
{
    let g = compiled(p);
    let start = match_start(g, s, 0);
    let origin = Place { node: 0, pos: start };
    let found = searched(g, s, 0).1;
    search_reports_longest(p, s);
    let end = choose|end: nat| accepts_to(g, s, origin, end);
    graph_accepts_only_matches(p, s, start, end);
    if start < s.len() {
        graph_accepts_only_matches(p, s, start, found[0].1);
        assert forall|to: nat| #[trigger] pattern_matches(p, s, start, to) implies to
            <= found[0].1 by {
            graph_accepts_matches(p, s, start, to);
        }
    }
}

/// The search that begins at the position `from` begins a pass at the position `x`.
pub open spec fn tries(g: Seq<StateView>, s: Seq<char>, from: nat, x: nat) -> bool
    decreases s.len() + 1 - from,
{
    if from > s.len() {
        false
    } else {
        let pass = pass_from(g, s, seed(s.len(), from));
        let reached = if pass.furthest > from {
            pass.furthest
        } else {
            from
        };
        x == from || (!pass.matched && reached < s.len() && tries(g, s, reached + 1, x))
    }
}

/// The pattern matches nothing from the position `x` on.
pub open spec fn no_match_at(p: PatternView, s: Seq<char>, x: nat) -> bool {
    forall|to: nat| !#[trigger] pattern_matches(p, s, x, to)
}

/// What the result of a search over the graph `g` says of the pattern `p`.
///
/// A match is reported where the pattern matches from the position at which the search found
/// it; if that position lies before the end of the subject, the first submatch begins there and
/// ends at the last position up to which the pattern matches from there. The pattern matches
/// nothing from any position at which the search began a pass before. Where no match is
/// reported, the pattern matches nothing from any position at which the search began a pass.
pub open spec fn is_report(
    p: PatternView,
    g: Seq<StateView>,
    s: Seq<char>,
    matched: bool,
    found: Seq<(nat, nat)>,
) -> bool {
    let start = match_start(g, s, 0);
    &&& matched ==> {
        &&& start <= s.len()
        &&& exists|to: nat| pattern_matches(p, s, start, to)
        &&& start < s.len() ==> {
            &&& found.len() > 0
            &&& found[0].0 == start
            &&& pattern_matches(p, s, start, found[0].1)
            &&& forall|to: nat| #[trigger] pattern_matches(p, s, start, to) ==> to <= found[0].1
        }
    }
    &&& forall|x: nat| #[trigger] tries(g, s, 0, x) && x < start ==> no_match_at(p, s, x)
}

proof fn lemma_tries(p: PatternView, s: Seq<char>, from: nat, x: nat)
    requires
        compilable(p),
        tries(compiled(p), s, from, x),
        x < match_start(compiled(p), s, from),
    ensures
        no_match_at(p, s, x),
    decreases s.len() + 1 - from,
{
    let g = compiled(p);
    let pass = pass_from(g, s, seed(s.len(), from));
    let reached = if pass.furthest > from {
        pass.furthest
    } else {
        from
    };
    pass_matches_pattern(p, s, from);
    if x == from {
        if pass.matched {
            assert(match_start(g, s, from) == from);
        }
    } else {
        lemma_tries(p, s, reached + 1, x);
    }
}

/// The result of a search is a report on the pattern whose graph was searched.
pub proof fn search_is_report(p: PatternView, s: Seq<char>)
    requires
        compilable(p),
    ensures
        is_report(p, compiled(p), s, searched(compiled(p), s, 0).0, searched(compiled(p), s, 0).1),
{
    let g = compiled(p);
    if searched(g, s, 0).0 {
        search_reports_match(p, s);
    }
    assert forall|x: nat| #[trigger] tries(g, s, 0, x) && x < match_start(g, s, 0) implies no_match_at(
        p,
        s,
        x,
    ) by {
        lemma_tries(p, s, 0, x);
    }
}

/// The result of a search over the graph of an optimized pattern is a report on the pattern as
/// it was before it was optimized.
pub proof fn search_is_report_optimized(p: PatternView, s: Seq<char>)
    requires
        compilable(optimized(p)),
    ensures
        is_report(
            p,
            compiled(optimized(p)),
            s,
            searched(compiled(optimized(p)), s, 0).0,
            searched(compiled(optimized(p)), s, 0).1,
        ),
{
    let o = optimized(p);
    let g = compiled(o);
    search_is_report(o, s);
    assert forall|x: nat, to: nat|
        #[trigger] pattern_matches(p, s, x, to) == pattern_matches(o, s, x, to) by {
        optimize_keeps_matches(p, s, x, to);
    }
    let start = match_start(g, s, 0);
    if searched(g, s, 0).0 {
        let to = choose|to: nat| pattern_matches(o, s, start, to);
        assert(pattern_matches(p, s, start, to));
    }
    assert forall|x: nat| #[trigger] tries(g, s, 0, x) && x < start implies no_match_at(
        p,
        s,
        x,
    ) by {
        assert(no_match_at(o, s, x));
        assert forall|to: nat| !#[trigger] pattern_matches(p, s, x, to) by {
            assert(!pattern_matches(o, s, x, to));
        }
    }
}

} // verus!
