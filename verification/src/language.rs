//! What a pattern matches, stated of the pattern alone, and the proof that the graph of a
//! pattern has a path for everything that the pattern matches.

use crate::compile::{
    compilable, compiled, empty_state, forked, fragment_ok, joined, lemma_lower_alternate_ok,
    lemma_lower_concat_ok, lemma_lower_item_ok, lemma_lower_ok, lemma_lower_specific_ok, lower,
    lower_alternate, lower_concat, lower_item, lower_repetition, lower_specific, nothing,
    once_or_more_of,
    patch_all, single, specific_items, submatch_of, zero_or_more_of, zero_or_once_of, Fragment,
};
use crate::matcher::MatcherKind;
use crate::reach::{
    accepts_to, advance_of, includes, leads_to, lemma_reachable_includes, lemma_reachable_self,
    lemma_reachable_step, lemma_reachable_trans, reachable, Place,
};
use crate::repr::{AnchorLocation, PatternView, RepetitionView};
use crate::state::{StateView, Submatch};
use vstd::prelude::*;

verus! {

/// A position at which a match is split in two.
pub open spec fn cut(at: nat) -> bool {
    true
}

/// The alternative that is taken.
pub open spec fn taken(i: int) -> bool {
    true
}

/// How often a pattern is repeated.
pub open spec fn times(k: nat) -> bool {
    true
}

/// A matcher matches the subject from the position `from` up to the position `to`: it accepts
/// the subject at `from`, and what it consumes ends at `to`, within the subject.
pub open spec fn kind_matches(kind: MatcherKind, s: Seq<char>, from: nat, to: nat) -> bool {
    &&& kind.accepts(s, from)
    &&& to == from + kind.width()
    &&& to <= s.len()
}

/// The pattern matches the subject from the position `from` up to the position `to`.
///
/// A sequence matches what its elements match one after the other; an alternation matches what
/// one of its alternatives matches; a submatch matches what its pattern matches.
pub open spec fn pattern_matches(p: PatternView, s: Seq<char>, from: nat, to: nat) -> bool
    decreases p, 0nat,
{
    match p {
        PatternView::Concat(ps) => sequence_matches(ps, ps.len(), s, from, to),
        PatternView::Alternate(ps) => exists|i: int|
            #[trigger] taken(i) && 0 <= i < ps.len() && pattern_matches(ps[i], s, from, to),
        PatternView::Submatch(q) => pattern_matches(*q, s, from, to),
        PatternView::Repeated(r) => repetition_matches(*r, s, from, to),
        PatternView::Char(c) => kind_matches(MatcherKind::Char(c), s, from, to),
        PatternView::Any => kind_matches(MatcherKind::Any, s, from, to),
        PatternView::Str(chars) => kind_matches(MatcherKind::Str(chars), s, from, to),
        PatternView::CharRange(lo, hi) => kind_matches(MatcherKind::CharRange(lo, hi), s, from, to),
        PatternView::CharSet(set) => kind_matches(MatcherKind::CharSet(set), s, from, to),
        PatternView::Anchor(AnchorLocation::Begin) => kind_matches(
            MatcherKind::AnchorBegin,
            s,
            from,
            to,
        ),
        PatternView::Anchor(AnchorLocation::End) => kind_matches(
            MatcherKind::AnchorEnd,
            s,
            from,
            to,
        ),
    }
}

/// The first `n` patterns of `ps` match the subject from `from` up to `to`, one after the
/// other.
pub open spec fn sequence_matches(ps: Seq<PatternView>, n: nat, s: Seq<char>, from: nat, to: nat)
    -> bool
    decreases ps, n,
{
    if n == 0 || n > ps.len() {
        n == 0 && to == from && to <= s.len()
    } else {
        exists|mid: nat|
            #[trigger] cut(mid) && sequence_matches(ps, (n - 1) as nat, s, from, mid) && pattern_matches(
                ps[n - 1],
                s,
                mid,
                to,
            )
    }
}

/// The repetition matches the subject from `from` up to `to`: its pattern matches so many times
/// in a row as the repetition allows. A count without an upper limit allows any number of
/// times from the count on.
pub open spec fn repetition_matches(r: RepetitionView, s: Seq<char>, from: nat, to: nat) -> bool
    decreases r, 0nat,
{
    match r {
        RepetitionView::ZeroOrOnce(q) => (to == from && to <= s.len()) || pattern_matches(q, s, from, to),
        RepetitionView::ZeroOrMore(q) => exists|k: nat|
            #[trigger] times(k) && matches_times(q, k, s, from, to),
        RepetitionView::OnceOrMore(q) => exists|k: nat|
            #[trigger] times(k) && k >= 1 && matches_times(q, k, s, from, to),
        RepetitionView::Specific(q, min, max) => exists|k: nat|
            #[trigger] times(k) && min <= k && (max is Some ==> k <= max->0) && matches_times(
                q,
                k,
                s,
                from,
                to,
            ),
    }
}

/// The pattern matches `k` times in a row, from `from` up to `to`.
pub open spec fn matches_times(q: PatternView, k: nat, s: Seq<char>, from: nat, to: nat) -> bool
    decreases q, k + 1,
{
    if k == 0 {
        to == from && to <= s.len()
    } else {
        exists|mid: nat|
            #[trigger] cut(mid) && matches_times(q, (k - 1) as nat, s, from, mid) && pattern_matches(
                q,
                s,
                mid,
                to,
            )
    }
}

/// A state lets a thread pass from the position `at` to the position `to`: its matcher, if it
/// has one, accepts the subject at `at`, and what it consumes ends at `to`, within the subject.
pub open spec fn fires(state: StateView, s: Seq<char>, at: nat, to: nat) -> bool {
    &&& state.matcher is Some ==> state.matcher->0.accepts(s, at)
    &&& to == at + advance_of(state)
    &&& to <= s.len()
}

/// The fragment leads from the position `from` to the position `to`: a path leads from its
/// entry at `from` to one of its loose ends, which lets the thread pass to `to`.
pub open spec fn connects(f: Fragment, s: Seq<char>, from: nat, to: nat) -> bool {
    exists|l: nat, x: nat|
        f.loose.contains(l) && #[trigger] reachable(
            f.graph,
            s,
            Place { node: f.entry, pos: from },
            Place { node: l, pos: x },
        ) && fires(f.graph[l as int], s, x, to)
}

/// What a pattern matches lies within the subject and does not end before it begins.
pub proof fn lemma_matches_bounds(p: PatternView, s: Seq<char>, from: nat, to: nat)
    requires
        pattern_matches(p, s, from, to),
    ensures
        from <= to <= s.len(),
    decreases p, 0nat,
{
    match p {
        PatternView::Concat(ps) => {
            lemma_matches_first_bounds(ps, ps.len(), s, from, to);
        },
        PatternView::Alternate(ps) => {
            let i = choose|i: int|
                #[trigger] taken(i) && 0 <= i < ps.len() && pattern_matches(ps[i], s, from, to);
            lemma_matches_bounds(ps[i], s, from, to);
        },
        PatternView::Submatch(q) => {
            lemma_matches_bounds(*q, s, from, to);
        },
        PatternView::Repeated(r) => {
            lemma_matches_repeated_bounds(*r, s, from, to);
        },
        _ => {},
    }
}

proof fn lemma_matches_repeated_bounds(r: RepetitionView, s: Seq<char>, from: nat, to: nat)
    requires
        repetition_matches(r, s, from, to),
    ensures
        from <= to <= s.len(),
    decreases r, 0nat,
{
    match r {
        RepetitionView::ZeroOrOnce(q) => {
            if !(to == from && to <= s.len()) {
                lemma_matches_bounds(q, s, from, to);
            }
        },
        RepetitionView::ZeroOrMore(q) => {
            let k = choose|k: nat| #[trigger] times(k) && matches_times(q, k, s, from, to);
            lemma_matches_times_bounds(q, k, s, from, to);
        },
        RepetitionView::OnceOrMore(q) => {
            let k = choose|k: nat|
                #[trigger] times(k) && k >= 1 && matches_times(q, k, s, from, to);
            lemma_matches_times_bounds(q, k, s, from, to);
        },
        RepetitionView::Specific(q, min, max) => {
            let k = choose|k: nat|
                #[trigger] times(k) && min <= k && (max is Some ==> k <= max->0)
                    && matches_times(q, k, s, from, to);
            lemma_matches_times_bounds(q, k, s, from, to);
        },
    }
}

proof fn lemma_matches_first_bounds(ps: Seq<PatternView>, n: nat, s: Seq<char>, from: nat, to: nat)
    requires
        sequence_matches(ps, n, s, from, to),
    ensures
        from <= to <= s.len(),
    decreases ps, n,
{
    if n == 0 || n > ps.len() {
    } else {
        let mid = choose|mid: nat|
            #[trigger] cut(mid) && sequence_matches(ps, (n - 1) as nat, s, from, mid) && pattern_matches(
                ps[n - 1],
                s,
                mid,
                to,
            );
        lemma_matches_first_bounds(ps, (n - 1) as nat, s, from, mid);
        lemma_matches_bounds(ps[n - 1], s, mid, to);
    }
}

proof fn lemma_matches_times_bounds(q: PatternView, k: nat, s: Seq<char>, from: nat, to: nat)
    requires
        matches_times(q, k, s, from, to),
    ensures
        from <= to <= s.len(),
    decreases q, k + 1,
{
    if k > 0 {
        let mid = choose|mid: nat|
            #[trigger] cut(mid) && matches_times(q, (k - 1) as nat, s, from, mid) && pattern_matches(
                q,
                s,
                mid,
                to,
            );
        lemma_matches_times_bounds(q, (k - 1) as nat, s, from, mid);
        lemma_matches_bounds(q, s, mid, to);
    }
}

/// Giving the loose ends of a fragment a successor, in a graph that begins with the states of
/// the fragment, leaves every path of the fragment in place and leads from every loose end to
/// that successor.
proof fn lemma_patched_includes(
    g: Seq<StateView>,
    f: Fragment,
    base: Seq<StateView>,
    next: nat,
)
    requires
        fragment_ok(g, f),
        includes(f.graph, base),
        forall|k: int| g.len() <= k < f.graph.len() ==> #[trigger] base[k] == f.graph[k],
    ensures
        includes(f.graph, patch_all(base, f.loose, next)),
        includes(base, patch_all(base, f.loose, next)),
        forall|i: int|
            0 <= i < f.loose.len() ==> leads_to(
                patch_all(base, f.loose, next)[#[trigger] f.loose[i] as int],
                next,
            ),
        forall|k: int|
            f.graph.len() <= k < base.len() ==> #[trigger] patch_all(base, f.loose, next)[k]
                == base[k],
{
    let r = patch_all(base, f.loose, next);
    assert forall|k: int| 0 <= k < base.len() implies (#[trigger] r[k]).matcher
        == base[k].matcher && forall|n: nat| #[trigger]
        leads_to(base[k], n) ==> leads_to(r[k], n) by {
        if f.loose.contains(k as nat) {
            let i = choose|i: int| 0 <= i < f.loose.len() && f.loose[i] == k as nat;
            assert(f.graph[f.loose[i] as int].out1 is None);
            assert(base[k] == f.graph[k]);
        }
    }
    lemma_includes_trans(f.graph, base, r);
    assert forall|i: int| 0 <= i < f.loose.len() implies leads_to(
        r[#[trigger] f.loose[i] as int],
        next,
    ) by {
        assert(f.loose.contains(f.loose[i]));
    }
    assert forall|k: int| f.graph.len() <= k < base.len() implies #[trigger] r[k] == base[k] by {
        if f.loose.contains(k as nat) {
            let i = choose|i: int| 0 <= i < f.loose.len() && f.loose[i] == k as nat;
            assert(f.loose[i] < f.graph.len());
        }
    }
}

/// A state that appends to a graph leaves every path of the graph in place.
proof fn lemma_push_includes(g: Seq<StateView>, state: StateView)
    ensures
        includes(g, g.push(state)),
{
    assert forall|k: int| 0 <= k < g.len() implies (#[trigger] g.push(state)[k]).matcher
        == g[k].matcher && forall|n: nat| #[trigger]
        leads_to(g[k], n) ==> leads_to(g.push(state)[k], n) by {}
}

/// A graph that includes a graph that includes a third includes the third.
proof fn lemma_includes_trans(a: Seq<StateView>, b: Seq<StateView>, c: Seq<StateView>)
    requires
        includes(a, b),
        includes(b, c),
    ensures
        includes(a, c),
{
    assert forall|k: int| 0 <= k < a.len() implies (#[trigger] c[k]).matcher == a[k].matcher
        && forall|n: nat| #[trigger] leads_to(a[k], n) ==> leads_to(c[k], n) by {
        assert(b[k].matcher == a[k].matcher);
        assert forall|n: nat| #[trigger] leads_to(a[k], n) implies leads_to(c[k], n) by {
            assert(leads_to(b[k], n));
        }
    }
}

/// A thread goes on from a place that it can reach, over an edge of the graph.
proof fn lemma_go_on(
    graph: Seq<StateView>,
    s: Seq<char>,
    a: Place,
    b: Place,
    next: nat,
    to: nat,
)
    requires
        reachable(graph, s, a, b),
        b.node < graph.len(),
        fires(graph[b.node as int], s, b.pos, to),
        leads_to(graph[b.node as int], next),
    ensures
        reachable(graph, s, a, Place { node: next, pos: to }),
{
    lemma_reachable_step(graph, s, a, b, Place { node: next, pos: to });
}

/// A thread that takes an edge first can reach what can be reached after it.
proof fn lemma_go_first(
    graph: Seq<StateView>,
    s: Seq<char>,
    a: Place,
    next: nat,
    to: nat,
    c: Place,
)
    requires
        a.node < graph.len(),
        fires(graph[a.node as int], s, a.pos, to),
        leads_to(graph[a.node as int], next),
        reachable(graph, s, Place { node: next, pos: to }, c),
    ensures
        reachable(graph, s, a, c),
{
    lemma_reachable_self(graph, s, a);
    lemma_go_on(graph, s, a, a, next, to);
    lemma_reachable_trans(graph, s, a, Place { node: next, pos: to }, c);
}

/// A single state with a matcher leads where its matcher matches.
proof fn lemma_connects_single(
    g: Seq<StateView>,
    kind: MatcherKind,
    s: Seq<char>,
    from: nat,
    to: nat,
)
    requires
        kind_matches(kind, s, from, to),
    ensures
        connects(single(g, kind), s, from, to),
{
    let f = single(g, kind);
    let at = Place { node: f.entry, pos: from };
    lemma_reachable_self(f.graph, s, at);
    assert(f.loose[0] == g.len());
    assert(f.loose.contains(g.len()));
    assert(reachable(f.graph, s, at, Place { node: g.len(), pos: from }));
}

/// A state that consumes nothing leads nowhere else.
proof fn lemma_connects_nothing(g: Seq<StateView>, s: Seq<char>, at: nat)
    requires
        at <= s.len(),
    ensures
        connects(nothing(g), s, at, at),
{
    let f = nothing(g);
    let here = Place { node: f.entry, pos: at };
    lemma_reachable_self(f.graph, s, here);
    assert(f.loose[0] == g.len());
    assert(f.loose.contains(g.len()));
    assert(reachable(f.graph, s, here, Place { node: g.len(), pos: at }));
}

/// A submatch leads where its fragment leads.
proof fn lemma_connects_submatch(g: Seq<StateView>, f: Fragment, s: Seq<char>, from: nat, to: nat)
    requires
        fragment_ok(g, f),
        connects(f, s, from, to),
        from <= to <= s.len(),
    ensures
        connects(submatch_of(f), s, from, to),
{
    let r = submatch_of(f);
    let before = f.graph.len();
    let after = before + 1;
    let base = f.graph.push(empty_state(Some(f.entry), None, Some(Submatch::Start))).push(
        empty_state(None, None, Some(Submatch::End)),
    );
    lemma_patched_includes(g, f, base, after);
    let (l, x) = choose|l: nat, x: nat|
        f.loose.contains(l) && #[trigger] reachable(
            f.graph,
            s,
            Place { node: f.entry, pos: from },
            Place { node: l, pos: x },
        ) && fires(f.graph[l as int], s, x, to);
    let i = choose|i: int| 0 <= i < f.loose.len() && f.loose[i] == l;
    assert(leads_to(r.graph[f.loose[i] as int], after));
    let entry = Place { node: f.entry, pos: from };
    let exit = Place { node: l, pos: x };
    lemma_reachable_includes(f.graph, r.graph, s, entry, exit);
    lemma_go_on(r.graph, s, entry, exit, after, to);
    assert(r.graph[before as int] == base[before as int]);
    assert(r.graph[after as int] == base[after as int]);
    lemma_go_first(
        r.graph,
        s,
        Place { node: before, pos: from },
        f.entry,
        from,
        Place { node: after, pos: to },
    );
    assert(r.loose[0] == after);
    assert(r.loose.contains(after));
    assert(reachable(
        r.graph,
        s,
        Place { node: r.entry, pos: from },
        Place { node: after, pos: to },
    ));
}

/// Where the loose ends of a fragment have got a successor, the thread gets from the entry of
/// the fragment to that successor, wherever the fragment leads.
proof fn lemma_through(
    g: Seq<StateView>,
    f: Fragment,
    base: Seq<StateView>,
    next: nat,
    s: Seq<char>,
    from: nat,
    to: nat,
)
    requires
        fragment_ok(g, f),
        includes(f.graph, base),
        forall|k: int| g.len() <= k < f.graph.len() ==> #[trigger] base[k] == f.graph[k],
        connects(f, s, from, to),
    ensures
        reachable(
            patch_all(base, f.loose, next),
            s,
            Place { node: f.entry, pos: from },
            Place { node: next, pos: to },
        ),
{
    let r = patch_all(base, f.loose, next);
    lemma_patched_includes(g, f, base, next);
    let (l, x) = choose|l: nat, x: nat|
        f.loose.contains(l) && #[trigger] reachable(
            f.graph,
            s,
            Place { node: f.entry, pos: from },
            Place { node: l, pos: x },
        ) && fires(f.graph[l as int], s, x, to);
    let i = choose|i: int| 0 <= i < f.loose.len() && f.loose[i] == l;
    assert(leads_to(r[f.loose[i] as int], next));
    let entry = Place { node: f.entry, pos: from };
    let exit = Place { node: l, pos: x };
    lemma_reachable_includes(f.graph, r, s, entry, exit);
    lemma_go_on(r, s, entry, exit, next, to);
}

/// The only loose end of a fragment is reached: the fragment leads there.
proof fn lemma_connects_at(f: Fragment, s: Seq<char>, from: nat, to: nat, end: nat)
    requires
        f.loose == seq![end],
        end < f.graph.len(),
        f.graph[end as int].matcher is None,
        to <= s.len(),
        reachable(f.graph, s, Place { node: f.entry, pos: from }, Place { node: end, pos: to }),
    ensures
        connects(f, s, from, to),
{
    assert(f.loose[0] == end);
    assert(f.loose.contains(end));
}

/// An optional fragment leads nowhere else, if it is passed over.
proof fn lemma_connects_skip(g: Seq<StateView>, f: Fragment, s: Seq<char>, at: nat)
    requires
        fragment_ok(g, f),
        at <= s.len(),
    ensures
        connects(zero_or_once_of(f), s, at, at),
{
    let r = zero_or_once_of(f);
    let after = f.graph.len();
    let before = after + 1;
    let base = f.graph.push(empty_state(None, None, None)).push(
        empty_state(Some(f.entry), Some(after), None),
    );
    lemma_patched_includes(g, f, base, after);
    assert(r.graph[before as int] == base[before as int]);
    assert(r.graph[after as int] == base[after as int]);
    let end = Place { node: after, pos: at };
    lemma_reachable_self(r.graph, s, end);
    lemma_go_first(r.graph, s, Place { node: before, pos: at }, after, at, end);
    lemma_connects_at(r, s, at, at, after);
}

/// An optional fragment leads where the fragment leads.
proof fn lemma_connects_once(g: Seq<StateView>, f: Fragment, s: Seq<char>, from: nat, to: nat)
    requires
        fragment_ok(g, f),
        connects(f, s, from, to),
        from <= to <= s.len(),
    ensures
        connects(zero_or_once_of(f), s, from, to),
{
    let r = zero_or_once_of(f);
    let after = f.graph.len();
    let before = after + 1;
    let base = f.graph.push(empty_state(None, None, None)).push(
        empty_state(Some(f.entry), Some(after), None),
    );
    lemma_patched_includes(g, f, base, after);
    lemma_through(g, f, base, after, s, from, to);
    assert(r.graph[before as int] == base[before as int]);
    assert(r.graph[after as int] == base[after as int]);
    lemma_go_first(
        r.graph,
        s,
        Place { node: before, pos: from },
        f.entry,
        from,
        Place { node: after, pos: to },
    );
    lemma_connects_at(r, s, from, to, after);
}

/// The place after a fragment that is repeated any number of times.
pub open spec fn star_end(f: Fragment, pos: nat) -> Place {
    Place { node: f.graph.len() + 1, pos }
}

/// A fragment that is repeated any number of times can be passed over.
proof fn lemma_star_none(g: Seq<StateView>, f: Fragment, s: Seq<char>, at: nat)
    requires
        fragment_ok(g, f),
        at <= s.len(),
    ensures
        reachable(
            zero_or_more_of(f).graph,
            s,
            Place { node: zero_or_more_of(f).entry, pos: at },
            star_end(f, at),
        ),
{
    let r = zero_or_more_of(f);
    let before = f.graph.len();
    let after = before + 1;
    let base = f.graph.push(empty_state(Some(f.entry), Some(after), None)).push(
        empty_state(Some(f.entry), None, None),
    );
    lemma_patched_includes(g, f, base, after);
    assert(r.graph[before as int] == base[before as int]);
    let end = Place { node: after, pos: at };
    lemma_reachable_self(r.graph, s, end);
    lemma_go_first(r.graph, s, Place { node: before, pos: at }, after, at, end);
}

/// After a fragment that is repeated any number of times, the fragment can be entered again.
proof fn lemma_star_again(
    g: Seq<StateView>,
    f: Fragment,
    s: Seq<char>,
    a: Place,
    mid: nat,
    to: nat,
)
    requires
        fragment_ok(g, f),
        reachable(zero_or_more_of(f).graph, s, a, star_end(f, mid)),
        connects(f, s, mid, to),
        mid <= to <= s.len(),
    ensures
        reachable(zero_or_more_of(f).graph, s, a, star_end(f, to)),
{
    let r = zero_or_more_of(f);
    let before = f.graph.len();
    let after = before + 1;
    let base = f.graph.push(empty_state(Some(f.entry), Some(after), None)).push(
        empty_state(Some(f.entry), None, None),
    );
    lemma_patched_includes(g, f, base, after);
    lemma_through(g, f, base, after, s, mid, to);
    assert(r.graph[after as int] == base[after as int]);
    lemma_go_first(r.graph, s, star_end(f, mid), f.entry, mid, star_end(f, to));
    lemma_reachable_trans(r.graph, s, a, star_end(f, mid), star_end(f, to));
}

/// A fragment that is repeated any number of times leads to the place after it.
proof fn lemma_star_connects(g: Seq<StateView>, f: Fragment, s: Seq<char>, from: nat, to: nat)
    requires
        fragment_ok(g, f),
        to <= s.len(),
        reachable(
            zero_or_more_of(f).graph,
            s,
            Place { node: zero_or_more_of(f).entry, pos: from },
            star_end(f, to),
        ),
    ensures
        connects(zero_or_more_of(f), s, from, to),
{
    let r = zero_or_more_of(f);
    let before = f.graph.len();
    let after = before + 1;
    let base = f.graph.push(empty_state(Some(f.entry), Some(after), None)).push(
        empty_state(Some(f.entry), None, None),
    );
    lemma_patched_includes(g, f, base, after);
    assert(r.graph[after as int] == base[after as int]);
    lemma_connects_at(r, s, from, to, after);
}

/// The place after a fragment that is repeated once or more.
pub open spec fn plus_end(f: Fragment, pos: nat) -> Place {
    Place { node: f.graph.len(), pos }
}

/// A fragment that is repeated once or more is entered, the first time or again.
proof fn lemma_plus_again(
    g: Seq<StateView>,
    f: Fragment,
    s: Seq<char>,
    a: Place,
    mid: nat,
    to: nat,
    first: bool,
)
    requires
        fragment_ok(g, f),
        if first {
            a == (Place { node: f.entry, pos: mid })
        } else {
            reachable(once_or_more_of(f).graph, s, a, plus_end(f, mid))
        },
        connects(f, s, mid, to),
        mid <= to <= s.len(),
    ensures
        reachable(once_or_more_of(f).graph, s, a, plus_end(f, to)),
{
    let r = once_or_more_of(f);
    let after = f.graph.len();
    let base = f.graph.push(empty_state(Some(f.entry), None, None));
    lemma_patched_includes(g, f, base, after);
    lemma_through(g, f, base, after, s, mid, to);
    if !first {
        assert(r.graph[after as int] == base[after as int]);
        lemma_go_first(r.graph, s, plus_end(f, mid), f.entry, mid, plus_end(f, to));
        lemma_reachable_trans(r.graph, s, a, plus_end(f, mid), plus_end(f, to));
    }
}

/// A fragment that is repeated once or more leads to the place after it.
proof fn lemma_plus_connects(g: Seq<StateView>, f: Fragment, s: Seq<char>, from: nat, to: nat)
    requires
        fragment_ok(g, f),
        to <= s.len(),
        reachable(
            once_or_more_of(f).graph,
            s,
            Place { node: f.entry, pos: from },
            plus_end(f, to),
        ),
    ensures
        connects(once_or_more_of(f), s, from, to),
{
    let r = once_or_more_of(f);
    let after = f.graph.len();
    let base = f.graph.push(empty_state(Some(f.entry), None, None));
    lemma_patched_includes(g, f, base, after);
    assert(r.graph[after as int] == base[after as int]);
    lemma_connects_at(r, s, from, to, after);
}

/// Two fragments one after the other lead where the second leads from where the first leads.
proof fn lemma_connects_joined(
    g: Seq<StateView>,
    first: Fragment,
    second: Fragment,
    s: Seq<char>,
    from: nat,
    mid: nat,
    to: nat,
)
    requires
        fragment_ok(g, first),
        fragment_ok(first.graph, second),
        connects(first, s, from, mid),
        connects(second, s, mid, to),
    ensures
        connects(joined(first, second), s, from, to),
{
    let r = joined(first, second);
    lemma_patched_includes(g, first, second.graph, second.entry);
    lemma_through(g, first, second.graph, second.entry, s, from, mid);
    let (l, x) = choose|l: nat, x: nat|
        second.loose.contains(l) && #[trigger] reachable(
            second.graph,
            s,
            Place { node: second.entry, pos: mid },
            Place { node: l, pos: x },
        ) && fires(second.graph[l as int], s, x, to);
    let i = choose|i: int| 0 <= i < second.loose.len() && second.loose[i] == l;
    assert(first.graph.len() <= second.loose[i] < second.graph.len());
    let a = Place { node: first.entry, pos: from };
    let b = Place { node: second.entry, pos: mid };
    let c = Place { node: l, pos: x };
    lemma_reachable_includes(second.graph, r.graph, s, b, c);
    lemma_reachable_trans(r.graph, s, a, b, c);
    assert(r.graph[l as int] == second.graph[l as int]);
    assert(reachable(r.graph, s, Place { node: r.entry, pos: from }, Place { node: l, pos: x }));
}

/// The choice between two fragments leads where one of them leads.
proof fn lemma_connects_forked(
    g: Seq<StateView>,
    left: Fragment,
    right: Fragment,
    s: Seq<char>,
    from: nat,
    to: nat,
    take_left: bool,
)
    requires
        fragment_ok(g, left),
        fragment_ok(left.graph, right),
        from <= s.len(),
        if take_left {
            connects(left, s, from, to)
        } else {
            connects(right, s, from, to)
        },
    ensures
        connects(forked(left, right), s, from, to),
{
    let r = forked(left, right);
    let fork = right.graph.len();
    let state = empty_state(Some(left.entry), Some(right.entry), None);
    lemma_push_includes(right.graph, state);
    assert(includes(left.graph, right.graph)) by {
        assert forall|k: int| 0 <= k < left.graph.len() implies (
        #[trigger] right.graph[k]).matcher == left.graph[k].matcher && forall|n: nat| #[trigger]
            leads_to(left.graph[k], n) ==> leads_to(right.graph[k], n) by {
            assert(right.graph[k] == left.graph[k]);
        }
    }
    lemma_includes_trans(left.graph, right.graph, r.graph);
    let start = Place { node: fork, pos: from };
    if take_left {
        let (l, x) = choose|l: nat, x: nat|
            left.loose.contains(l) && #[trigger] reachable(
                left.graph,
                s,
                Place { node: left.entry, pos: from },
                Place { node: l, pos: x },
            ) && fires(left.graph[l as int], s, x, to);
        let i = choose|i: int| 0 <= i < left.loose.len() && left.loose[i] == l;
        assert(g.len() <= left.loose[i] < left.graph.len());
        let c = Place { node: l, pos: x };
        lemma_reachable_includes(left.graph, r.graph, s, Place { node: left.entry, pos: from }, c);
        lemma_go_first(r.graph, s, start, left.entry, from, c);
        assert(r.loose[i] == l);
        assert(r.loose.contains(l));
        assert(right.graph[l as int] == left.graph[l as int]);
        assert(r.graph[l as int].matcher == left.graph[l as int].matcher);
        assert(reachable(r.graph, s, Place { node: r.entry, pos: from }, Place { node: l, pos: x }));
    } else {
        let (l, x) = choose|l: nat, x: nat|
            right.loose.contains(l) && #[trigger] reachable(
                right.graph,
                s,
                Place { node: right.entry, pos: from },
                Place { node: l, pos: x },
            ) && fires(right.graph[l as int], s, x, to);
        let i = choose|i: int| 0 <= i < right.loose.len() && right.loose[i] == l;
        assert(left.graph.len() <= right.loose[i] < right.graph.len());
        let c = Place { node: l, pos: x };
        lemma_reachable_includes(
            right.graph,
            r.graph,
            s,
            Place { node: right.entry, pos: from },
            c,
        );
        lemma_go_first(r.graph, s, start, right.entry, from, c);
        assert(r.loose[left.loose.len() + i] == l);
        assert(r.loose.contains(l));
        assert(reachable(r.graph, s, Place { node: r.entry, pos: from }, Place { node: l, pos: x }));
    }
}

/// The fragment of a pattern leads wherever the pattern matches.
pub proof fn lemma_lower_connects(
    p: PatternView,
    g: Seq<StateView>,
    s: Seq<char>,
    from: nat,
    to: nat,
)
    requires
        compilable(p),
        pattern_matches(p, s, from, to),
    ensures
        connects(lower(p, g), s, from, to),
    decreases p, 0nat, 0nat,
{
    lemma_matches_bounds(p, s, from, to);
    match p {
        PatternView::Concat(ps) => {
            lemma_concat_connects(ps, ps.len(), g, s, from, to);
        },
        PatternView::Alternate(ps) => {
            let i = choose|i: int|
                #[trigger] taken(i) && 0 <= i < ps.len() && pattern_matches(ps[i], s, from, to);
            lemma_alternate_connects(ps, i, g, s, from, to);
        },
        PatternView::Submatch(q) => {
            lemma_lower_connects(*q, g, s, from, to);
            lemma_lower_ok(*q, g);
            lemma_connects_submatch(g, lower(*q, g), s, from, to);
        },
        PatternView::Repeated(r) => {
            lemma_repetition_connects(*r, g, s, from, to);
        },
        PatternView::Char(c) => {
            lemma_connects_single(g, MatcherKind::Char(c), s, from, to);
        },
        PatternView::Any => {
            lemma_connects_single(g, MatcherKind::Any, s, from, to);
        },
        PatternView::Str(chars) => {
            lemma_connects_single(g, MatcherKind::Str(chars), s, from, to);
        },
        PatternView::CharRange(lo, hi) => {
            lemma_connects_single(g, MatcherKind::CharRange(lo, hi), s, from, to);
        },
        PatternView::CharSet(set) => {
            lemma_connects_single(g, MatcherKind::CharSet(set), s, from, to);
        },
        PatternView::Anchor(AnchorLocation::Begin) => {
            lemma_connects_single(g, MatcherKind::AnchorBegin, s, from, to);
        },
        PatternView::Anchor(AnchorLocation::End) => {
            lemma_connects_single(g, MatcherKind::AnchorEnd, s, from, to);
        },
    }
}

proof fn lemma_concat_connects(
    ps: Seq<PatternView>,
    n: nat,
    g: Seq<StateView>,
    s: Seq<char>,
    from: nat,
    to: nat,
)
    requires
        1 <= n <= ps.len(),
        forall|i: int| 0 <= i < ps.len() ==> compilable(#[trigger] ps[i]),
        sequence_matches(ps, n, s, from, to),
    ensures
        connects(lower_concat(ps, n, g), s, from, to),
    decreases ps, n, 0nat,
{
    let mid = choose|mid: nat|
        #[trigger] cut(mid) && sequence_matches(ps, (n - 1) as nat, s, from, mid) && pattern_matches(
            ps[n - 1],
            s,
            mid,
            to,
        );
    if n == 1 {
        assert(mid == from);
        lemma_lower_connects(ps[0], g, s, from, to);
    } else {
        lemma_concat_connects(ps, (n - 1) as nat, g, s, from, mid);
        let first = lower_concat(ps, (n - 1) as nat, g);
        lemma_lower_concat_ok(ps, (n - 1) as nat, g);
        lemma_lower_connects(ps[n - 1], first.graph, s, mid, to);
        lemma_lower_ok(ps[n - 1], first.graph);
        lemma_connects_joined(g, first, lower(ps[n - 1], first.graph), s, from, mid, to);
    }
}

proof fn lemma_alternate_connects(
    ps: Seq<PatternView>,
    i: int,
    g: Seq<StateView>,
    s: Seq<char>,
    from: nat,
    to: nat,
)
    requires
        0 <= i < ps.len(),
        forall|j: int| 0 <= j < ps.len() ==> compilable(#[trigger] ps[j]),
        pattern_matches(ps[i], s, from, to),
    ensures
        connects(lower_alternate(ps, g), s, from, to),
    decreases ps, 0nat, 0nat,
{
    lemma_matches_bounds(ps[i], s, from, to);
    if ps.len() == 1 {
        lemma_lower_connects(ps[0], g, s, from, to);
    } else {
        let mid = (ps.len() / 2) as int;
        vstd::seq::axiom_seq_subrange_decreases(ps, 0, mid);
        vstd::seq::axiom_seq_subrange_decreases(ps, mid, ps.len() as int);
        let a = ps.subrange(0, mid);
        let b = ps.subrange(mid, ps.len() as int);
        assert forall|j: int| 0 <= j < a.len() implies compilable(#[trigger] a[j]) by {
            assert(a[j] == ps[j]);
        }
        assert forall|j: int| 0 <= j < b.len() implies compilable(#[trigger] b[j]) by {
            assert(b[j] == ps[mid + j]);
        }
        lemma_lower_alternate_ok(a, g);
        let left = lower_alternate(a, g);
        lemma_lower_alternate_ok(b, left.graph);
        let right = lower_alternate(b, left.graph);
        if i < mid {
            assert(a[i] == ps[i]);
            lemma_alternate_connects(a, i, g, s, from, to);
        } else {
            assert(b[i - mid] == ps[i]);
            lemma_alternate_connects(b, i - mid, left.graph, s, from, to);
        }
        lemma_connects_forked(g, left, right, s, from, to, i < mid);
    }
}

/// A fragment that is repeated any number of times leads wherever its pattern matches some
/// number of times in a row.
proof fn lemma_star_times(
    q: PatternView,
    k: nat,
    g: Seq<StateView>,
    s: Seq<char>,
    from: nat,
    to: nat,
)
    requires
        compilable(q),
        matches_times(q, k, s, from, to),
    ensures
        reachable(
            zero_or_more_of(lower(q, g)).graph,
            s,
            Place { node: zero_or_more_of(lower(q, g)).entry, pos: from },
            star_end(lower(q, g), to),
        ),
    decreases q, 1nat, k,
{
    let f = lower(q, g);
    lemma_lower_ok(q, g);
    if k == 0 {
        lemma_star_none(g, f, s, from);
    } else {
        let mid = choose|mid: nat|
            #[trigger] cut(mid) && matches_times(q, (k - 1) as nat, s, from, mid) && pattern_matches(
                q,
                s,
                mid,
                to,
            );
        lemma_star_times(q, (k - 1) as nat, g, s, from, mid);
        lemma_lower_connects(q, g, s, mid, to);
        lemma_matches_bounds(q, s, mid, to);
        lemma_star_again(
            g,
            f,
            s,
            Place { node: zero_or_more_of(f).entry, pos: from },
            mid,
            to,
        );
    }
}

/// A fragment that is repeated once or more leads wherever its pattern matches once or more
/// in a row.
proof fn lemma_plus_times(
    q: PatternView,
    k: nat,
    g: Seq<StateView>,
    s: Seq<char>,
    from: nat,
    to: nat,
)
    requires
        compilable(q),
        k >= 1,
        matches_times(q, k, s, from, to),
    ensures
        reachable(
            once_or_more_of(lower(q, g)).graph,
            s,
            Place { node: lower(q, g).entry, pos: from },
            plus_end(lower(q, g), to),
        ),
    decreases q, 1nat, k,
{
    let f = lower(q, g);
    lemma_lower_ok(q, g);
    let mid = choose|mid: nat|
        #[trigger] cut(mid) && matches_times(q, (k - 1) as nat, s, from, mid) && pattern_matches(
            q,
            s,
            mid,
            to,
        );
    lemma_lower_connects(q, g, s, mid, to);
    lemma_matches_bounds(q, s, mid, to);
    let a = Place { node: f.entry, pos: from };
    if k == 1 {
        assert(mid == from);
        lemma_plus_again(g, f, s, a, mid, to, true);
    } else {
        lemma_plus_times(q, (k - 1) as nat, g, s, from, mid);
        lemma_plus_again(g, f, s, a, mid, to, false);
    }
}

proof fn lemma_repetition_connects(
    r: RepetitionView,
    g: Seq<StateView>,
    s: Seq<char>,
    from: nat,
    to: nat,
)
    requires
        compilable(PatternView::Repeated(Box::new(r))),
        repetition_matches(r, s, from, to),
    ensures
        connects(lower_repetition(r, g), s, from, to),
    decreases r, 0nat, 0nat,
{
    lemma_matches_repeated_bounds(r, s, from, to);
    match r {
        RepetitionView::ZeroOrOnce(q) => {
            lemma_lower_ok(q, g);
            if pattern_matches(q, s, from, to) {
                lemma_lower_connects(q, g, s, from, to);
                lemma_connects_once(g, lower(q, g), s, from, to);
            } else {
                lemma_connects_skip(g, lower(q, g), s, from);
            }
        },
        RepetitionView::ZeroOrMore(q) => {
            let k = choose|k: nat| #[trigger] times(k) && matches_times(q, k, s, from, to);
            lemma_lower_ok(q, g);
            lemma_star_times(q, k, g, s, from, to);
            lemma_star_connects(g, lower(q, g), s, from, to);
        },
        RepetitionView::OnceOrMore(q) => {
            let k = choose|k: nat|
                #[trigger] times(k) && k >= 1 && matches_times(q, k, s, from, to);
            lemma_lower_ok(q, g);
            lemma_plus_times(q, k, g, s, from, to);
            lemma_plus_connects(g, lower(q, g), s, from, to);
        },
        RepetitionView::Specific(q, min, max) => {
            let k = choose|k: nat|
                #[trigger] times(k) && min <= k && (max is Some ==> k <= max->0)
                    && matches_times(q, k, s, from, to);
            if specific_items(min, max) == 0 {
                assert(k == 0);
                lemma_connects_nothing(g, s, from);
            } else {
                lemma_specific_connects(q, min, max, specific_items(min, max), k, g, s, from, to);
            }
        },
    }
}

/// The pattern matches `a + b` times in a row where it matches `a` times and then `b` times.
proof fn lemma_times_split(q: PatternView, a: nat, b: nat, s: Seq<char>, from: nat, to: nat)
    requires
        matches_times(q, a + b, s, from, to),
    ensures
        exists|mid: nat|
            #[trigger] cut(mid) && matches_times(q, a, s, from, mid) && matches_times(
                q,
                b,
                s,
                mid,
                to,
            ),
    decreases b,
{
    if b == 0 {
        lemma_matches_times_bounds(q, a, s, from, to);
        assert(cut(to) && matches_times(q, a, s, from, to) && matches_times(q, 0, s, to, to));
    } else {
        let last = choose|last: nat|
            #[trigger] cut(last) && matches_times(q, (a + b - 1) as nat, s, from, last) && pattern_matches(
                q,
                s,
                last,
                to,
            );
        lemma_times_split(q, a, (b - 1) as nat, s, from, last);
        let mid = choose|mid: nat|
            #[trigger] cut(mid) && matches_times(q, a, s, from, mid) && matches_times(
                q,
                (b - 1) as nat,
                s,
                mid,
                last,
            );
        assert(cut(last) && matches_times(q, (b - 1) as nat, s, mid, last) && pattern_matches(
            q,
            s,
            last,
            to,
        ));
        assert(matches_times(q, b, s, mid, to));
        assert(cut(mid) && matches_times(q, a, s, from, mid) && matches_times(q, b, s, mid, to));
    }
}

/// The first `n` items of a counted repetition lead wherever the pattern matches `k` times in a
/// row, if the items allow `k` times: as many times as there are items while all of them are
/// copies, no fewer than `min` times and no more than there are items where some of them are
/// optional copies, and any number of times from `min` on where the last of them is the copy
/// that is repeated any number of times.
proof fn lemma_specific_connects(
    q: PatternView,
    min: nat,
    max: Option<nat>,
    n: nat,
    k: nat,
    g: Seq<StateView>,
    s: Seq<char>,
    from: nat,
    to: nat,
)
    requires
        compilable(q),
        1 <= n <= specific_items(min, max),
        matches_times(q, k, s, from, to),
        n <= min ==> k == n,
        n > min ==> min <= k,
        n > min && max is Some ==> k <= n,
    ensures
        connects(lower_specific(q, min, max, n, g), s, from, to),
    decreases q, 2nat, n,
{
    reveal_with_fuel(lower_specific, 2);
    lemma_matches_times_bounds(q, k, s, from, to);
    if n <= min {
        // All items so far are copies.
        let mid = choose|mid: nat|
            #[trigger] cut(mid) && matches_times(q, (k - 1) as nat, s, from, mid) && pattern_matches(
                q,
                s,
                mid,
                to,
            );
        if n == 1 {
            assert(mid == from);
            lemma_lower_connects(q, g, s, from, to);
        } else {
            lemma_specific_connects(q, min, max, (n - 1) as nat, (k - 1) as nat, g, s, from, mid);
            let first = lower_specific(q, min, max, (n - 1) as nat, g);
            lemma_lower_specific_ok(q, min, max, (n - 1) as nat, g);
            lemma_lower_connects(q, first.graph, s, mid, to);
            lemma_lower_item_ok(q, min, max, (n - 1) as nat, first.graph);
            lemma_connects_joined(
                g,
                first,
                lower_item(q, min, max, (n - 1) as nat, first.graph),
                s,
                from,
                mid,
                to,
            );
        }
    } else if max is Some {
        // The last item is an optional copy.
        if n == 1 {
            lemma_lower_ok(q, g);
            if k == 0 {
                lemma_connects_skip(g, lower(q, g), s, from);
            } else {
                let mid = choose|mid: nat|
                    #[trigger] cut(mid) && matches_times(q, (k - 1) as nat, s, from, mid)
                        && pattern_matches(q, s, mid, to);
                assert(mid == from);
                lemma_lower_connects(q, g, s, from, to);
                lemma_connects_once(g, lower(q, g), s, from, to);
            }
        } else {
            let first = lower_specific(q, min, max, (n - 1) as nat, g);
            lemma_lower_specific_ok(q, min, max, (n - 1) as nat, g);
            lemma_lower_ok(q, first.graph);
            lemma_lower_item_ok(q, min, max, (n - 1) as nat, first.graph);
            let item = lower_item(q, min, max, (n - 1) as nat, first.graph);
            if k == n {
                let mid = choose|mid: nat|
                    #[trigger] cut(mid) && matches_times(q, (k - 1) as nat, s, from, mid)
                        && pattern_matches(q, s, mid, to);
                lemma_specific_connects(
                    q,
                    min,
                    max,
                    (n - 1) as nat,
                    (k - 1) as nat,
                    g,
                    s,
                    from,
                    mid,
                );
                lemma_lower_connects(q, first.graph, s, mid, to);
                lemma_matches_bounds(q, s, mid, to);
                lemma_connects_once(first.graph, lower(q, first.graph), s, mid, to);
                lemma_connects_joined(g, first, item, s, from, mid, to);
            } else {
                lemma_specific_connects(q, min, max, (n - 1) as nat, k, g, s, from, to);
                lemma_connects_skip(first.graph, lower(q, first.graph), s, to);
                lemma_connects_joined(g, first, item, s, from, to, to);
            }
        }
    } else {
        // The last item is the copy that is repeated any number of times.
        assert(n == min + 1);
        lemma_times_split(q, min, (k - min) as nat, s, from, to);
        let mid = choose|mid: nat|
            #[trigger] cut(mid) && matches_times(q, min, s, from, mid) && matches_times(
                q,
                (k - min) as nat,
                s,
                mid,
                to,
            );
        if n == 1 {
            assert(mid == from);
            lemma_lower_ok(q, g);
            lemma_star_times(q, k, g, s, from, to);
            lemma_star_connects(g, lower(q, g), s, from, to);
        } else {
            lemma_specific_connects(q, min, max, (n - 1) as nat, min, g, s, from, mid);
            let first = lower_specific(q, min, max, (n - 1) as nat, g);
            lemma_lower_specific_ok(q, min, max, (n - 1) as nat, g);
            lemma_lower_ok(q, first.graph);
            lemma_lower_item_ok(q, min, max, (n - 1) as nat, first.graph);
            let item = lower_item(q, min, max, (n - 1) as nat, first.graph);
            lemma_star_times(q, (k - min) as nat, first.graph, s, mid, to);
            lemma_star_connects(first.graph, lower(q, first.graph), s, mid, to);
            lemma_connects_joined(g, first, item, s, from, mid, to);
        }
    }
}

/// The graph has a path for everything that the pattern matches: where the pattern matches the
/// subject from `from` up to `to`, a path through its graph leads from the first state at
/// `from` to the last state at `to`.
pub proof fn graph_accepts_matches(p: PatternView, s: Seq<char>, from: nat, to: nat)
    requires
        compilable(p),
        pattern_matches(p, s, from, to),
    ensures
        accepts_to(compiled(p), s, Place { node: 0, pos: from }, to),
{
    let start = seq![empty_state(None, None, Some(Submatch::Start))];
    let f = lower(p, start);
    lemma_lower_ok(p, start);
    lemma_lower_connects(p, start, s, from, to);
    lemma_matches_bounds(p, s, from, to);
    let last = f.graph.len();
    let base = f.graph.update(0, empty_state(Some(f.entry), None, Some(Submatch::Start))).push(
        empty_state(None, None, Some(Submatch::End)),
    );
    let g = compiled(p);
    assert(g == patch_all(base, f.loose, last));
    assert(includes(f.graph, base)) by {
        assert forall|k: int| 0 <= k < f.graph.len() implies (#[trigger] base[k]).matcher
            == f.graph[k].matcher && forall|n: nat| #[trigger]
            leads_to(f.graph[k], n) ==> leads_to(base[k], n) by {
            if k == 0 {
                assert(f.graph[0] == start[0]);
            }
        }
    }
    lemma_patched_includes(start, f, base, last);
    lemma_through(start, f, base, last, s, from, to);
    assert forall|i: int| 0 <= i < f.loose.len() implies 1 <= #[trigger] f.loose[i] < last by {}
    assert(!f.loose.contains(0));
    assert(g[0] == base[0]);
    assert(g[last as int] == base[last as int]);
    lemma_go_first(
        g,
        s,
        Place { node: 0, pos: from },
        f.entry,
        from,
        Place { node: last, pos: to },
    );
    assert(g[last as int].is_last());
    assert(reachable(g, s, Place { node: 0, pos: from }, Place { node: last, pos: to }));
}

} // verus!
