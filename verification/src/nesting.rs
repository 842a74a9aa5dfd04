//! The nesting of submatches in a compiled graph: every state has a depth, the number of
//! submatches that are open when a thread arrives at it, and every edge of the graph agrees
//! with the depths of the two states that it joins.

use crate::compile::{
    compilable, compiled, empty_state, forked, fragment_ok, joined, lower, lower_alternate,
    lower_concat, lower_item, lower_repetition, lower_specific, nothing, once_or_more_of,
    patch_all, single,
    specific_items, submatch_of, zero_or_more_of, zero_or_once_of, Fragment,
};
use crate::matcher::MatcherKind;
use crate::repr::{AnchorLocation, PatternView, RepetitionView};
use crate::state::{closed_state, StateView, Submatch};
use vstd::prelude::*;

verus! {

/// By how much a state changes the number of open submatches.
pub open spec fn delta(sub: Option<Submatch>) -> int {
    match sub {
        Some(Submatch::Start) => 1,
        Some(Submatch::End) => -1,
        None => 0,
    }
}

/// The depths of the states of the fragment of `p`, in the order of the states, where `d`
/// submatches are open at its entry.
pub open spec fn labels(p: PatternView, d: int) -> Seq<int>
    decreases p, 0nat,
{
    match p {
        PatternView::Concat(ps) => labels_concat(ps, ps.len(), d),
        PatternView::Alternate(ps) => labels_alternate(ps, d),
        PatternView::Submatch(q) => labels(*q, d + 1) + seq![d, d + 1],
        PatternView::Repeated(r) => labels_repetition(*r, d),
        _ => seq![d],
    }
}

/// The depths of the states of the first `n` patterns of a sequence.
pub open spec fn labels_concat(ps: Seq<PatternView>, n: nat, d: int) -> Seq<int>
    decreases ps, n,
{
    if n == 0 || n > ps.len() {
        Seq::empty()
    } else if n == 1 {
        labels(ps[0], d)
    } else {
        labels_concat(ps, (n - 1) as nat, d) + labels(ps[n - 1], d)
    }
}

/// The depths of the states of an alternation.
pub open spec fn labels_alternate(ps: Seq<PatternView>, d: int) -> Seq<int>
    decreases ps, 0nat,
{
    if ps.len() == 0 {
        seq![d]
    } else if ps.len() == 1 {
        labels(ps[0], d)
    } else {
        let mid = (ps.len() / 2) as int;
        proof {
            vstd::seq::axiom_seq_subrange_decreases(ps, 0, mid);
            vstd::seq::axiom_seq_subrange_decreases(ps, mid, ps.len() as int);
        }
        labels_alternate(ps.subrange(0, mid), d) + labels_alternate(
            ps.subrange(mid, ps.len() as int),
            d,
        ) + seq![d]
    }
}

/// The depths of the states of a repetition.
pub open spec fn labels_repetition(r: RepetitionView, d: int) -> Seq<int>
    decreases r, 0nat,
{
    match r {
        RepetitionView::ZeroOrOnce(q) => labels(q, d) + seq![d, d],
        RepetitionView::ZeroOrMore(q) => labels(q, d) + seq![d, d],
        RepetitionView::OnceOrMore(q) => labels(q, d) + seq![d],
        RepetitionView::Specific(q, min, max) => if specific_items(min, max) == 0 {
            seq![d]
        } else {
            labels_specific(q, min, max, specific_items(min, max), d)
        },
    }
}

/// The depths of the states of one item of a counted repetition.
pub open spec fn labels_item(q: PatternView, min: nat, max: Option<nat>, index: nat, d: int) -> Seq<
    int,
>
    decreases q, 1nat,
{
    if index < min {
        labels(q, d)
    } else {
        labels(q, d) + seq![d, d]
    }
}

/// The depths of the states of the first `n` items of a counted repetition.
pub open spec fn labels_specific(q: PatternView, min: nat, max: Option<nat>, n: nat, d: int) -> Seq<
    int,
>
    decreases q, n + 1,
{
    if n == 0 {
        Seq::empty()
    } else if n == 1 {
        labels_item(q, min, max, 0, d)
    } else {
        labels_specific(q, min, max, (n - 1) as nat, d) + labels_item(
            q,
            min,
            max,
            (n - 1) as nat,
            d,
        )
    }
}

/// The state `s` at the depth `at` agrees with the depths: neither its depth nor the depth after
/// it is below `d`, and each successor is at the depth after it.
pub open spec fn node_ok(s: StateView, depth: Seq<int>, at: int, d: int) -> bool {
    &&& at >= d
    &&& at + delta(s.sub) >= d
    &&& s.out is Some ==> depth[s.out->0 as int] == at + delta(s.sub)
    &&& s.out1 is Some ==> depth[s.out1->0 as int] == at + delta(s.sub)
}

/// The states from the index `lo` up to the index `hi` agree with the depths.
pub open spec fn edges_ok(graph: Seq<StateView>, depth: Seq<int>, lo: int, hi: int, d: int) -> bool {
    forall|k: int| lo <= k < hi ==> node_ok(#[trigger] graph[k], depth, depth[k], d)
}

/// The depths `depth` fit the fragment `f`, built onto the graph `g`, at the depth `d`: inside
/// the fragment no depth is below `d`; every edge leads to a state whose depth is the depth
/// after the state that it leaves; the entry is at the depth `d`; and the depth after every
/// loose end is `d`.
pub open spec fn frag_labelled(g: Seq<StateView>, f: Fragment, depth: Seq<int>, d: int) -> bool {
    &&& fragment_ok(g, f)
    &&& depth.len() == f.graph.len()
    &&& edges_ok(f.graph, depth, g.len() as int, f.graph.len() as int, d)
    &&& depth[f.entry as int] == d
    &&& forall|i: int|
        0 <= i < f.loose.len() ==> depth[#[trigger] f.loose[i] as int] + delta(
            f.graph[f.loose[i] as int].sub,
        ) == d
}

/// The loose ends of a fragment get a successor at their own depth, and states are added after
/// the fragment: the states of the fragment still agree with the depths.
proof fn lemma_patched_edges(
    g: Seq<StateView>,
    f: Fragment,
    depth: Seq<int>,
    d: int,
    graph: Seq<StateView>,
    more: Seq<int>,
    next: nat,
    low: int,
)
    requires
        frag_labelled(g, f, depth, d),
        graph.len() >= f.graph.len(),
        graph.len() == depth.len() + more.len(),
        forall|k: int| 0 <= k < f.graph.len() ==> #[trigger] graph[k] == f.graph[k],
        next < graph.len(),
        (depth + more)[next as int] == d,
        low <= d,
    ensures
        edges_ok(
            patch_all(graph, f.loose, next),
            depth + more,
            g.len() as int,
            f.graph.len() as int,
            low,
        ),
        forall|k: int|
            f.graph.len() <= k < graph.len() ==> #[trigger] patch_all(graph, f.loose, next)[k]
                == graph[k],
        forall|k: int|
            0 <= k < g.len() ==> #[trigger] patch_all(graph, f.loose, next)[k] == g[k],
{
    let lo = g.len() as int;
    let hi = f.graph.len() as int;
    let all = depth + more;
    let r = patch_all(graph, f.loose, next);
    assert forall|k: int| lo <= k < hi implies node_ok(#[trigger] r[k], all, all[k], low) by {
        assert(node_ok(f.graph[k], depth, depth[k], d));
        assert(closed_state(f.graph[k], g.len(), f.graph.len()));
        assert(graph[k] == f.graph[k]);
        if f.loose.contains(k as nat) {
            let i = choose|i: int| 0 <= i < f.loose.len() && f.loose[i] == k as nat;
            assert(depth[f.loose[i] as int] + delta(f.graph[f.loose[i] as int].sub) == d);
            assert(f.graph[f.loose[i] as int].out1 is None);
        }
    }
    assert forall|k: int| hi <= k < graph.len() implies #[trigger] r[k] == graph[k] by {
        if f.loose.contains(k as nat) {
            let i = choose|i: int| 0 <= i < f.loose.len() && f.loose[i] == k as nat;
            assert(f.loose[i] < hi);
        }
    }
    assert forall|k: int| 0 <= k < lo implies #[trigger] r[k] == g[k] by {
        if f.loose.contains(k as nat) {
            let i = choose|i: int| 0 <= i < f.loose.len() && f.loose[i] == k as nat;
            assert(lo <= f.loose[i]);
        }
        assert(graph[k] == f.graph[k]);
    }
}

/// The depths fit a single state.
proof fn lemma_labelled_single(g: Seq<StateView>, kind: MatcherKind, before: Seq<int>, d: int)
    requires
        before.len() == g.len(),
    ensures
        frag_labelled(g, single(g, kind), before + seq![d], d),
{
    crate::compile::lemma_single(g, kind);
    let f = single(g, kind);
    assert(f.loose[0] == g.len());
}

/// The depths fit a state that consumes nothing.
proof fn lemma_labelled_nothing(g: Seq<StateView>, before: Seq<int>, d: int)
    requires
        before.len() == g.len(),
    ensures
        frag_labelled(g, nothing(g), before + seq![d], d),
{
    crate::compile::lemma_nothing(g);
    let f = nothing(g);
    assert(f.loose[0] == g.len());
}

/// The depths fit a submatch: the fragment inside is one deeper.
proof fn lemma_labelled_submatch(g: Seq<StateView>, f: Fragment, depth: Seq<int>, d: int)
    requires
        frag_labelled(g, f, depth, d + 1),
    ensures
        frag_labelled(g, submatch_of(f), depth + seq![d, d + 1], d),
{
    crate::compile::lemma_submatch_of(g, f);
    let r = submatch_of(f);
    let before = f.graph.len();
    let after = before + 1;
    let graph = f.graph.push(empty_state(Some(f.entry), None, Some(Submatch::Start))).push(
        empty_state(None, None, Some(Submatch::End)),
    );
    let all = depth + seq![d, d + 1];
    lemma_patched_edges(g, f, depth, d + 1, graph, seq![d, d + 1], after, d);
    assert(r.graph == patch_all(graph, f.loose, after));
    assert forall|k: int| g.len() <= k < r.graph.len() implies node_ok(
        #[trigger] r.graph[k],
        all,
        all[k],
        d,
    ) by {
        if k >= before {
            assert(r.graph[k] == graph[k]);
        }
    }
    assert(r.loose[0] == after);
}

/// The depths fit an optional fragment.
proof fn lemma_labelled_zero_or_once(g: Seq<StateView>, f: Fragment, depth: Seq<int>, d: int)
    requires
        frag_labelled(g, f, depth, d),
    ensures
        frag_labelled(g, zero_or_once_of(f), depth + seq![d, d], d),
{
    crate::compile::lemma_zero_or_once_of(g, f);
    let r = zero_or_once_of(f);
    let after = f.graph.len();
    let before = after + 1;
    let graph = f.graph.push(empty_state(None, None, None)).push(
        empty_state(Some(f.entry), Some(after), None),
    );
    let all = depth + seq![d, d];
    lemma_patched_edges(g, f, depth, d, graph, seq![d, d], after, d);
    assert(r.graph == patch_all(graph, f.loose, after));
    assert forall|k: int| g.len() <= k < r.graph.len() implies node_ok(
        #[trigger] r.graph[k],
        all,
        all[k],
        d,
    ) by {
        if k >= after {
            assert(r.graph[k] == graph[k]);
        }
    }
    assert(r.loose[0] == after);
}

/// The depths fit a fragment that is repeated any number of times.
proof fn lemma_labelled_zero_or_more(g: Seq<StateView>, f: Fragment, depth: Seq<int>, d: int)
    requires
        frag_labelled(g, f, depth, d),
    ensures
        frag_labelled(g, zero_or_more_of(f), depth + seq![d, d], d),
{
    crate::compile::lemma_zero_or_more_of(g, f);
    let r = zero_or_more_of(f);
    let before = f.graph.len();
    let after = before + 1;
    let graph = f.graph.push(empty_state(Some(f.entry), Some(after), None)).push(
        empty_state(Some(f.entry), None, None),
    );
    let all = depth + seq![d, d];
    lemma_patched_edges(g, f, depth, d, graph, seq![d, d], after, d);
    assert(r.graph == patch_all(graph, f.loose, after));
    assert forall|k: int| g.len() <= k < r.graph.len() implies node_ok(
        #[trigger] r.graph[k],
        all,
        all[k],
        d,
    ) by {
        if k >= before {
            assert(r.graph[k] == graph[k]);
        }
    }
    assert(r.loose[0] == after);
}

/// The depths fit a fragment that is repeated once or more.
proof fn lemma_labelled_once_or_more(g: Seq<StateView>, f: Fragment, depth: Seq<int>, d: int)
    requires
        frag_labelled(g, f, depth, d),
    ensures
        frag_labelled(g, once_or_more_of(f), depth + seq![d], d),
{
    crate::compile::lemma_once_or_more_of(g, f);
    let r = once_or_more_of(f);
    let after = f.graph.len();
    let graph = f.graph.push(empty_state(Some(f.entry), None, None));
    let all = depth + seq![d];
    lemma_patched_edges(g, f, depth, d, graph, seq![d], after, d);
    assert(r.graph == patch_all(graph, f.loose, after));
    assert forall|k: int| g.len() <= k < r.graph.len() implies node_ok(
        #[trigger] r.graph[k],
        all,
        all[k],
        d,
    ) by {
        if k >= after {
            assert(r.graph[k] == graph[k]);
        }
    }
    assert(r.loose[0] == after);
}

/// The depths fit two fragments one after the other.
proof fn lemma_labelled_joined(
    g: Seq<StateView>,
    first: Fragment,
    second: Fragment,
    depth: Seq<int>,
    more: Seq<int>,
    d: int,
)
    requires
        frag_labelled(g, first, depth, d),
        frag_labelled(first.graph, second, depth + more, d),
    ensures
        frag_labelled(g, joined(first, second), depth + more, d),
{
    crate::compile::lemma_joined(g, first, second);
    let r = joined(first, second);
    let all = depth + more;
    let mid = first.graph.len() as int;
    lemma_patched_edges(g, first, depth, d, second.graph, more, second.entry, d);
    assert forall|k: int| g.len() <= k < r.graph.len() implies node_ok(
        #[trigger] r.graph[k],
        all,
        all[k],
        d,
    ) by {
        if k >= mid {
            assert(r.graph[k] == second.graph[k]);
            assert(node_ok(second.graph[k], all, all[k], d));
        }
    }
    assert forall|i: int| 0 <= i < r.loose.len() implies all[#[trigger] r.loose[i] as int] + delta(
        r.graph[r.loose[i] as int].sub,
    ) == d by {
        let k = second.loose[i] as int;
        assert(mid <= second.loose[i]);
        assert(r.graph[k] == second.graph[k]);
    }
}

/// The depths fit the choice between two fragments.
proof fn lemma_labelled_forked(
    g: Seq<StateView>,
    left: Fragment,
    right: Fragment,
    depth: Seq<int>,
    more: Seq<int>,
    d: int,
)
    requires
        frag_labelled(g, left, depth, d),
        frag_labelled(left.graph, right, depth + more, d),
    ensures
        frag_labelled(g, forked(left, right), depth + more + seq![d], d),
{
    crate::compile::lemma_forked(g, left, right);
    let r = forked(left, right);
    let all = depth + more + seq![d];
    let mid = left.graph.len() as int;
    let fork = right.graph.len() as int;
    assert forall|k: int| g.len() <= k < r.graph.len() implies node_ok(
        #[trigger] r.graph[k],
        all,
        all[k],
        d,
    ) by {
        if k < mid {
            assert(right.graph[k] == left.graph[k]);
            assert(node_ok(left.graph[k], depth, depth[k], d));
            assert(closed_state(left.graph[k], g.len(), left.graph.len()));
        } else if k < fork {
            assert(node_ok(right.graph[k], depth + more, (depth + more)[k], d));
            assert(closed_state(right.graph[k], left.graph.len(), right.graph.len()));
        }
    }
    assert forall|i: int| 0 <= i < r.loose.len() implies all[#[trigger] r.loose[i] as int] + delta(
        r.graph[r.loose[i] as int].sub,
    ) == d by {
        if i < left.loose.len() {
            let k = left.loose[i] as int;
            assert(right.graph[k] == left.graph[k]);
        } else {
            let k = right.loose[i - left.loose.len()] as int;
        }
    }
}

/// The depths of a pattern fit its fragment.
pub proof fn lemma_labels(p: PatternView, g: Seq<StateView>, before: Seq<int>, d: int)
    requires
        compilable(p),
        before.len() == g.len(),
    ensures
        frag_labelled(g, lower(p, g), before + labels(p, d), d),
    decreases p, 0nat,
{
    match p {
        PatternView::Concat(ps) => {
            lemma_labels_concat(ps, ps.len(), g, before, d);
        },
        PatternView::Alternate(ps) => {
            lemma_labels_alternate(ps, g, before, d);
        },
        PatternView::Submatch(q) => {
            lemma_labels(*q, g, before, d + 1);
            lemma_labelled_submatch(g, lower(*q, g), before + labels(*q, d + 1), d);
            assert(before + labels(p, d) =~= before + labels(*q, d + 1) + seq![d, d + 1]);
        },
        PatternView::Repeated(r) => {
            lemma_labels_repetition(*r, g, before, d);
        },
        PatternView::Char(c) => {
            lemma_labelled_single(g, MatcherKind::Char(c), before, d);
        },
        PatternView::Any => {
            lemma_labelled_single(g, MatcherKind::Any, before, d);
        },
        PatternView::Str(s) => {
            lemma_labelled_single(g, MatcherKind::Str(s), before, d);
        },
        PatternView::CharRange(lo, hi) => {
            lemma_labelled_single(g, MatcherKind::CharRange(lo, hi), before, d);
        },
        PatternView::CharSet(set) => {
            lemma_labelled_single(g, MatcherKind::CharSet(set), before, d);
        },
        PatternView::Anchor(AnchorLocation::Begin) => {
            lemma_labelled_single(g, MatcherKind::AnchorBegin, before, d);
        },
        PatternView::Anchor(AnchorLocation::End) => {
            lemma_labelled_single(g, MatcherKind::AnchorEnd, before, d);
        },
    }
}

/// The same of the first `n` patterns of a sequence.
pub proof fn lemma_labels_concat(
    ps: Seq<PatternView>,
    n: nat,
    g: Seq<StateView>,
    before: Seq<int>,
    d: int,
)
    requires
        1 <= n <= ps.len(),
        forall|i: int| 0 <= i < ps.len() ==> compilable(#[trigger] ps[i]),
        before.len() == g.len(),
    ensures
        frag_labelled(g, lower_concat(ps, n, g), before + labels_concat(ps, n, d), d),
    decreases ps, n,
{
    if n == 1 {
        lemma_labels(ps[0], g, before, d);
    } else {
        lemma_labels_concat(ps, (n - 1) as nat, g, before, d);
        let first = lower_concat(ps, (n - 1) as nat, g);
        let so_far = before + labels_concat(ps, (n - 1) as nat, d);
        lemma_labels(ps[n - 1], first.graph, so_far, d);
        lemma_labelled_joined(
            g,
            first,
            lower(ps[n - 1], first.graph),
            so_far,
            labels(ps[n - 1], d),
            d,
        );
        assert(before + labels_concat(ps, n, d) =~= so_far + labels(ps[n - 1], d));
    }
}

/// The same of an alternation.
pub proof fn lemma_labels_alternate(
    ps: Seq<PatternView>,
    g: Seq<StateView>,
    before: Seq<int>,
    d: int,
)
    requires
        forall|i: int| 0 <= i < ps.len() ==> compilable(#[trigger] ps[i]),
        before.len() == g.len(),
    ensures
        frag_labelled(g, lower_alternate(ps, g), before + labels_alternate(ps, d), d),
    decreases ps, 0nat,
{
    if ps.len() == 0 {
        lemma_labelled_single(g, crate::compile::never(), before, d);
    } else if ps.len() == 1 {
        lemma_labels(ps[0], g, before, d);
    } else {
        let mid = (ps.len() / 2) as int;
        vstd::seq::axiom_seq_subrange_decreases(ps, 0, mid);
        vstd::seq::axiom_seq_subrange_decreases(ps, mid, ps.len() as int);
        let a = ps.subrange(0, mid);
        let b = ps.subrange(mid, ps.len() as int);
        assert forall|i: int| 0 <= i < a.len() implies compilable(#[trigger] a[i]) by {
            assert(a[i] == ps[i]);
        }
        assert forall|i: int| 0 <= i < b.len() implies compilable(#[trigger] b[i]) by {
            assert(b[i] == ps[mid + i]);
        }
        lemma_labels_alternate(a, g, before, d);
        let left = lower_alternate(a, g);
        let so_far = before + labels_alternate(a, d);
        lemma_labels_alternate(b, left.graph, so_far, d);
        lemma_labelled_forked(
            g,
            left,
            lower_alternate(b, left.graph),
            so_far,
            labels_alternate(b, d),
            d,
        );
        assert(before + labels_alternate(ps, d) =~= so_far + labels_alternate(b, d) + seq![d]);
    }
}

/// The same of a repetition.
pub proof fn lemma_labels_repetition(
    r: RepetitionView,
    g: Seq<StateView>,
    before: Seq<int>,
    d: int,
)
    requires
        compilable(PatternView::Repeated(Box::new(r))),
        before.len() == g.len(),
    ensures
        frag_labelled(g, lower_repetition(r, g), before + labels_repetition(r, d), d),
    decreases r, 0nat,
{
    match r {
        RepetitionView::ZeroOrOnce(q) => {
            lemma_labels(q, g, before, d);
            lemma_labelled_zero_or_once(g, lower(q, g), before + labels(q, d), d);
            assert(before + labels_repetition(r, d) =~= before + labels(q, d) + seq![d, d]);
        },
        RepetitionView::ZeroOrMore(q) => {
            lemma_labels(q, g, before, d);
            lemma_labelled_zero_or_more(g, lower(q, g), before + labels(q, d), d);
            assert(before + labels_repetition(r, d) =~= before + labels(q, d) + seq![d, d]);
        },
        RepetitionView::OnceOrMore(q) => {
            lemma_labels(q, g, before, d);
            lemma_labelled_once_or_more(g, lower(q, g), before + labels(q, d), d);
            assert(before + labels_repetition(r, d) =~= before + labels(q, d) + seq![d]);
        },
        RepetitionView::Specific(q, min, max) => {
            if specific_items(min, max) == 0 {
                lemma_labelled_nothing(g, before, d);
            } else {
                lemma_labels_specific(q, min, max, specific_items(min, max), g, before, d);
            }
        },
    }
}

/// The same of one item of a counted repetition.
pub proof fn lemma_labels_item(
    q: PatternView,
    min: nat,
    max: Option<nat>,
    index: nat,
    g: Seq<StateView>,
    before: Seq<int>,
    d: int,
)
    requires
        compilable(q),
        before.len() == g.len(),
    ensures
        frag_labelled(
            g,
            lower_item(q, min, max, index, g),
            before + labels_item(q, min, max, index, d),
            d,
        ),
    decreases q, 1nat,
{
    lemma_labels(q, g, before, d);
    if index < min {
    } else if max is Some {
        lemma_labelled_zero_or_once(g, lower(q, g), before + labels(q, d), d);
        assert(before + labels_item(q, min, max, index, d) =~= before + labels(q, d) + seq![d, d]);
    } else {
        lemma_labelled_zero_or_more(g, lower(q, g), before + labels(q, d), d);
        assert(before + labels_item(q, min, max, index, d) =~= before + labels(q, d) + seq![d, d]);
    }
}

/// The same of the first `n` items of a counted repetition.
pub proof fn lemma_labels_specific(
    q: PatternView,
    min: nat,
    max: Option<nat>,
    n: nat,
    g: Seq<StateView>,
    before: Seq<int>,
    d: int,
)
    requires
        compilable(q),
        n >= 1,
        before.len() == g.len(),
    ensures
        frag_labelled(
            g,
            lower_specific(q, min, max, n, g),
            before + labels_specific(q, min, max, n, d),
            d,
        ),
    decreases q, n + 1,
{
    if n == 1 {
        lemma_labels_item(q, min, max, 0, g, before, d);
    } else {
        lemma_labels_specific(q, min, max, (n - 1) as nat, g, before, d);
        let first = lower_specific(q, min, max, (n - 1) as nat, g);
        let so_far = before + labels_specific(q, min, max, (n - 1) as nat, d);
        lemma_labels_item(q, min, max, (n - 1) as nat, first.graph, so_far, d);
        lemma_labelled_joined(
            g,
            first,
            lower_item(q, min, max, (n - 1) as nat, first.graph),
            so_far,
            labels_item(q, min, max, (n - 1) as nat, d),
            d,
        );
        assert(before + labels_specific(q, min, max, n, d) =~= so_far + labels_item(
            q,
            min,
            max,
            (n - 1) as nat,
            d,
        ));
    }
}

/// The depths of the states of the graph of a pattern: the first state is at depth 0, the
/// states of the pattern count the whole match as one open submatch, and so does the last.
pub open spec fn depths(p: PatternView) -> Seq<int> {
    seq![0int] + labels(p, 1) + seq![1int]
}

/// The submatches of a graph are nested as the depths `depth` say: the first state starts a
/// submatch at depth 0 and no edge leads back to it; every other state is at depth 1 or more;
/// every edge leads to a state at the depth after the state that it leaves; and a state without
/// successors ends a submatch at depth 1.
pub open spec fn nested(g: Seq<StateView>, depth: Seq<int>) -> bool {
    &&& g.len() >= 2
    &&& depth.len() == g.len()
    &&& depth[0] == 0
    &&& g[0].sub == Some(Submatch::Start)
    &&& forall|k: int| 1 <= k < g.len() ==> #[trigger] depth[k] >= 1
    &&& forall|k: int|
        0 <= k < g.len() && (#[trigger] g[k]).out is Some ==> 1 <= g[k].out->0 < g.len()
            && depth[g[k].out->0 as int] == depth[k] + delta(g[k].sub)
    &&& forall|k: int|
        0 <= k < g.len() && (#[trigger] g[k]).out1 is Some ==> 1 <= g[k].out1->0 < g.len()
            && depth[g[k].out1->0 as int] == depth[k] + delta(g[k].sub)
    &&& forall|k: int|
        0 <= k < g.len() && (#[trigger] g[k]).is_last() ==> depth[k] == 1 && g[k].sub == Some(
            Submatch::End,
        )
}

/// The submatches of the graph of a pattern are nested as its depths say.
pub proof fn lemma_compiled_nested(p: PatternView)
    requires
        compilable(p),
    ensures
        nested(compiled(p), depths(p)),
{
    let start = seq![empty_state(None, None, Some(Submatch::Start))];
    let f = lower(p, start);
    let inner = seq![0int] + labels(p, 1);
    lemma_labels(p, start, seq![0int], 1);
    crate::compile::lemma_compiled_bracketed(p);
    let last = f.graph.len();
    let g = compiled(p);
    let depth = depths(p);
    let graph = f.graph.update(0, empty_state(Some(f.entry), None, Some(Submatch::Start))).push(
        empty_state(None, None, Some(Submatch::End)),
    );
    assert(g == patch_all(graph, f.loose, last));
    assert forall|i: int| 0 <= i < f.loose.len() implies 1 <= #[trigger] f.loose[i] < last by {}
    assert(!f.loose.contains(0));
    assert(!f.loose.contains(last));
    assert forall|k: int| 1 <= k < last implies node_ok(#[trigger] g[k], depth, depth[k], 1) by {
        assert(node_ok(f.graph[k], inner, inner[k], 1));
        assert(closed_state(f.graph[k], 1, last));
        assert(graph[k] == f.graph[k]);
        if f.loose.contains(k as nat) {
            let i = choose|i: int| 0 <= i < f.loose.len() && f.loose[i] == k as nat;
            assert(inner[f.loose[i] as int] + delta(f.graph[f.loose[i] as int].sub) == 1);
            assert(f.graph[f.loose[i] as int].out1 is None);
        }
    }
    assert forall|k: int| 0 <= k < g.len() && (#[trigger] g[k]).out is Some implies 1
        <= g[k].out->0 < g.len() && depth[g[k].out->0 as int] == depth[k] + delta(g[k].sub) by {
        if 1 <= k < last {
            assert(node_ok(g[k], depth, depth[k], 1));
            assert(closed_state(f.graph[k], 1, last));
        }
    }
    assert forall|k: int| 0 <= k < g.len() && (#[trigger] g[k]).out1 is Some implies 1
        <= g[k].out1->0 < g.len() && depth[g[k].out1->0 as int] == depth[k] + delta(g[k].sub) by {
        if 1 <= k < last {
            assert(node_ok(g[k], depth, depth[k], 1));
            assert(closed_state(f.graph[k], 1, last));
        }
    }
    assert forall|k: int| 0 <= k < g.len() && (#[trigger] g[k]).is_last() implies depth[k] == 1
        && g[k].sub == Some(Submatch::End) by {
        if k < g.len() - 1 {
            assert(g[k].out is Some);
        }
    }
    assert forall|k: int| 1 <= k < g.len() implies #[trigger] depth[k] >= 1 by {
        if k < last {
            assert(node_ok(g[k], depth, depth[k], 1));
        }
    }
}

} // verus!
