//! What a pass over a compiled graph records: the whole match is recorded at the position where
//! the pass began, and it is the first of the submatches that the pass reports.

use crate::compile::{compilable, compiled, lemma_compiled_bracketed};
use crate::matching::{
    begun, cleared, lemma_round, pass_from, round, scheduled, searched, seed, spans, stepped,
    unseen, walk_ok, walked, Pass, Thread,
};
use crate::reach::{accepts_to, pass_finds_longest, place_of, Place};
use crate::nesting::{delta, depths, lemma_compiled_nested, nested};
use crate::repr::PatternView;
use crate::state::{StateView, Submatch};
use vstd::prelude::*;

verus! {

/// What is true of a thread of a pass that began at the position `start`, before the end of the
/// subject, in a graph whose submatches are nested as `depth` says.
///
/// The thread has not gone back. Nothing is recorded or open before `start`. As many submatches
/// are open as the depth of its state says, or fewer once the thread is at the end of the
/// subject, where none is opened any more. The outermost open submatch is the whole match, and
/// where none is open but the depth says that one is, the whole match was recorded to end at
/// the end of the subject.
pub open spec fn thread_nested(
    g: Seq<StateView>,
    depth: Seq<int>,
    len: nat,
    start: nat,
    t: Thread,
) -> bool {
    let h = depth[t.node as int];
    &&& t.fits(g.len(), len)
    &&& start <= t.pos
    &&& t.node == 0 ==> t.pos == start
    &&& forall|i: int| 0 <= i < t.open.len() ==> start <= #[trigger] t.open[i]
    &&& forall|i: int| 0 <= i < start ==> (#[trigger] t.captures[i]) is None
    &&& t.open.len() <= h
    &&& t.pos < len ==> t.open.len() == h
    &&& t.open.len() >= 1 ==> t.open[0] == start
    &&& t.open.len() == 0 && h >= 1 ==> t.captures[start as int] == Some(len)
}

/// The capture map records the whole match from `start` to `end` and nothing before `start`.
pub open spec fn records_whole(captures: Seq<Option<nat>>, len: nat, start: nat, end: nat) -> bool {
    &&& captures.len() == len + 1
    &&& start <= end <= len
    &&& captures[start as int] == Some(end)
    &&& forall|i: int| 0 <= i < start ==> (#[trigger] captures[i]) is None
}

/// What is true of a pass that began at the position `start`: the threads that it has scheduled
/// are in order, and the best match, if there is one, records the whole match up to where it
/// ends.
pub open spec fn pass_nested(
    g: Seq<StateView>,
    depth: Seq<int>,
    len: nat,
    start: nat,
    acc: Pass,
) -> bool {
    &&& forall|i: int|
        0 <= i < acc.next.len() ==> thread_nested(g, depth, len, start, #[trigger] acc.next[i])
    &&& acc.matched ==> records_whole(acc.best, len, start, acc.longest)
}

/// A thread that is in order is in order after the mark of its state was applied, at the depth
/// after that state; and at a state without successors it records the whole match.
proof fn lemma_marked_nested(
    g: Seq<StateView>,
    depth: Seq<int>,
    len: nat,
    start: nat,
    t: Thread,
)
    requires
        nested(g, depth),
        start < len,
        thread_nested(g, depth, len, start, t),
    ensures
        ({
            let state = g[t.node as int];
            let m = t.marked(state.sub, len);
            let h = depth[t.node as int] + delta(state.sub);
            &&& m.fits(g.len(), len)
            &&& m.pos == t.pos
            &&& m.node == t.node
            &&& forall|i: int| 0 <= i < m.open.len() ==> start <= #[trigger] m.open[i]
            &&& forall|i: int| 0 <= i < start ==> (#[trigger] m.captures[i]) is None
            &&& state.is_last() ==> records_whole(m.captures, len, start, m.pos)
            &&& !state.is_last() ==> {
                &&& m.open.len() <= h
                &&& m.pos < len ==> m.open.len() == h
                &&& m.open.len() >= 1 ==> m.open[0] == start
                &&& m.open.len() == 0 && h >= 1 ==> m.captures[start as int] == Some(len)
            }
        }),
{
    let state = g[t.node as int];
    let m = t.marked(state.sub, len);
    let d = depth[t.node as int];
    assert(g[t.node as int].is_last() ==> depth[t.node as int] == 1 && g[t.node as int].sub
        == Some(Submatch::End));
    if t.node > 0 {
        assert(depth[t.node as int] >= 1);
    }
    assert forall|i: int| 0 <= i < m.open.len() implies start <= #[trigger] m.open[i] && m.open[i]
        < len by {
        if i < t.open.len() {
            assert(start <= t.open[i]);
            assert(t.open[i] < len);
        }
    }
    match state.sub {
        Some(Submatch::Start) => {
            if t.pos < len {
                if t.open.len() >= 1 {
                    assert(m.open[0] == t.open[0]);
                }
            }
        },
        Some(Submatch::End) => {
            if t.open.len() > 0 {
                let top = t.open.last();
                assert(start <= t.open[t.open.len() - 1]);
                assert(t.open[t.open.len() - 1] < len);
                assert forall|i: int| 0 <= i < start implies (#[trigger] m.captures[i]) is None by {
                    assert(t.captures[i] is None);
                }
                if t.open.len() >= 2 {
                    assert(m.open[0] == t.open[0]);
                }
            }
        },
        None => {},
    }
}

/// One step of a thread that is in order keeps the pass in order.
proof fn lemma_stepped_nested(
    g: Seq<StateView>,
    depth: Seq<int>,
    subject: Seq<char>,
    start: nat,
    acc: Pass,
    t: Thread,
)
    requires
        nested(g, depth),
        start < subject.len(),
        thread_nested(g, depth, subject.len(), start, t),
        pass_nested(g, depth, subject.len(), start, acc),
    ensures
        pass_nested(g, depth, subject.len(), start, stepped(g, subject, acc, t)),
{
    let len = subject.len();
    let state = g[t.node as int];
    let m = t.marked(state.sub, len);
    let after = stepped(g, subject, acc, t);
    lemma_marked_nested(g, depth, len, start, t);
    if state.is_last() {
    } else {
        let acc1 = Pass {
            furthest: if m.pos > acc.furthest {
                m.pos
            } else {
                acc.furthest
            },
            ..acc
        };
        let advance = match state.matcher {
            Some(kind) => kind.width(),
            None => 0,
        };
        let target = m.pos + advance;
        if state.matcher is Some && !state.matcher->0.accepts(subject, m.pos) {
        } else if target > len {
        } else {
            let acc2 = scheduled(acc1, state.out, target, m);
            lemma_scheduled_nested(g, depth, len, start, acc1, state.out, target, m, t.node);
            lemma_scheduled_nested(g, depth, len, start, acc2, state.out1, target, m, t.node);
        }
    }
}

/// Scheduling a thread that has taken its step keeps the pass in order.
proof fn lemma_scheduled_nested(
    g: Seq<StateView>,
    depth: Seq<int>,
    len: nat,
    start: nat,
    acc: Pass,
    target: Option<nat>,
    pos: nat,
    m: Thread,
    from: nat,
)
    requires
        nested(g, depth),
        start < len,
        pass_nested(g, depth, len, start, acc),
        from < g.len(),
        target is Some ==> (g[from as int].out == target || g[from as int].out1 == target),
        !g[from as int].is_last(),
        m.fits(g.len(), len),
        start <= m.pos <= pos <= len,
        forall|i: int| 0 <= i < m.open.len() ==> start <= #[trigger] m.open[i],
        forall|i: int| 0 <= i < start ==> (#[trigger] m.captures[i]) is None,
        ({
            let h = depth[from as int] + delta(g[from as int].sub);
            &&& m.open.len() <= h
            &&& m.pos < len ==> m.open.len() == h
            &&& m.open.len() >= 1 ==> m.open[0] == start
            &&& m.open.len() == 0 && h >= 1 ==> m.captures[start as int] == Some(len)
        }),
    ensures
        pass_nested(g, depth, len, start, scheduled(acc, target, pos, m)),
{
    let after = scheduled(acc, target, pos, m);
    match target {
        None => {},
        Some(node) => {
            let moved = m.moved(node, pos);
            assert(g[from as int].out is Some || g[from as int].out1 is Some);
            assert(1 <= node < g.len());
            assert(depth[node as int] == depth[from as int] + delta(g[from as int].sub));
            assert forall|i: int| 0 <= i < moved.open.len() implies (#[trigger] moved.open[i])
                < len by {
                assert(m.open[i] < len);
            }
            assert(thread_nested(g, depth, len, start, moved));
            assert forall|i: int| 0 <= i < after.next.len() implies thread_nested(
                g,
                depth,
                len,
                start,
                #[trigger] after.next[i],
            ) by {
                if i < acc.next.len() {
                    assert(thread_nested(g, depth, len, start, acc.next[i]));
                }
            }
        },
    }
}

/// The steps of a round of threads that are in order keep the pass in order.
proof fn lemma_round_nested(
    g: Seq<StateView>,
    depth: Seq<int>,
    subject: Seq<char>,
    start: nat,
    acc: Pass,
    current: Seq<Thread>,
    n: nat,
)
    requires
        nested(g, depth),
        start < subject.len(),
        n <= current.len(),
        forall|i: int|
            0 <= i < current.len() ==> thread_nested(
                g,
                depth,
                subject.len(),
                start,
                #[trigger] current[i],
            ),
        pass_nested(g, depth, subject.len(), start, acc),
    ensures
        pass_nested(g, depth, subject.len(), start, round(g, subject, acc, current, n)),
    decreases n,
{
    if n > 0 {
        lemma_round_nested(g, depth, subject, start, acc, current, (n - 1) as nat);
        lemma_stepped_nested(
            g,
            depth,
            subject,
            start,
            round(g, subject, acc, current, (n - 1) as nat),
            current[n - 1],
        );
    }
}

/// The walk keeps the pass in order, to its end.
proof fn lemma_walked_nested(
    g: Seq<StateView>,
    depth: Seq<int>,
    subject: Seq<char>,
    start: nat,
    acc: Pass,
    current: Seq<Thread>,
)
    requires
        nested(g, depth),
        start < subject.len(),
        walk_ok(g, subject, acc, current),
        forall|i: int|
            0 <= i < current.len() ==> thread_nested(
                g,
                depth,
                subject.len(),
                start,
                #[trigger] current[i],
            ),
        acc.matched ==> records_whole(acc.best, subject.len(), start, acc.longest),
    ensures
        walked(g, subject, acc, current).matched ==> records_whole(
            walked(g, subject, acc, current).best,
            subject.len(),
            start,
            walked(g, subject, acc, current).longest,
        ),
    decreases unseen(acc.seen), current.len(),
{
    if current.len() > 0 {
        let after = round(g, subject, cleared(acc), current, current.len());
        lemma_round(g, subject, cleared(acc), current, current.len());
        assert(pass_nested(g, depth, subject.len(), start, cleared(acc)));
        lemma_round_nested(g, depth, subject, start, cleared(acc), current, current.len());
        assert forall|i: int| 0 <= i < after.next.len() implies (#[trigger] after.next[i]).fits(
            g.len(),
            subject.len(),
        ) by {}
        lemma_walked_nested(g, depth, subject, start, after, after.next);
    }
}

/// In a capture map in which nothing is recorded, there is no submatch.
proof fn lemma_spans_none(captures: Seq<Option<nat>>)
    requires
        forall|i: int| 0 <= i < captures.len() ==> (#[trigger] captures[i]) is None,
    ensures
        spans(captures).len() == 0,
    decreases captures.len(),
{
    if captures.len() > 0 {
        let rest = captures.drop_last();
        assert forall|i: int| 0 <= i < rest.len() implies (#[trigger] rest[i]) is None by {
            assert(captures[i] is None);
        }
        lemma_spans_none(rest);
        assert(captures.last() == captures[captures.len() - 1]);
    }
}

/// The first submatch of a capture map is the one at the first position at which an end is
/// recorded.
pub proof fn lemma_spans_first(captures: Seq<Option<nat>>, start: nat, end: nat)
    requires
        start < captures.len(),
        captures[start as int] == Some(end),
        forall|i: int| 0 <= i < start ==> (#[trigger] captures[i]) is None,
    ensures
        spans(captures).len() > 0,
        spans(captures)[0] == (start, end),
    decreases captures.len(),
{
    let rest = captures.drop_last();
    if captures.len() - 1 == start {
        assert forall|i: int| 0 <= i < rest.len() implies (#[trigger] rest[i]) is None by {
            assert(captures[i] is None);
        }
        lemma_spans_none(rest);
        assert(captures.last() == captures[start as int]);
    } else {
        assert(rest[start as int] == captures[start as int]);
        assert forall|i: int| 0 <= i < start implies (#[trigger] rest[i]) is None by {
            assert(captures[i] is None);
        }
        lemma_spans_first(rest, start, end);
    }
}

/// The whole match comes first. Where a pass over the graph of a pattern begins before the end
/// of the subject and matches, the first submatch that it reports begins where the pass began
/// and ends where the best match ends, and that is no earlier.
pub proof fn whole_match_first(p: PatternView, subject: Seq<char>, start: nat)
    requires
        compilable(p),
        start < subject.len(),
        pass_from(compiled(p), subject, seed(subject.len(), start)).matched,
    ensures
        ({
            let pass = pass_from(compiled(p), subject, seed(subject.len(), start));
            &&& spans(pass.best).len() > 0
            &&& spans(pass.best)[0] == (start, pass.longest)
            &&& start <= pass.longest <= subject.len()
        }),
{
    let g = compiled(p);
    let depth = depths(p);
    let len = subject.len();
    let t = seed(len, start);
    lemma_compiled_nested(p);
    lemma_compiled_bracketed(p);
    let first = begun(g, subject, t);
    assert(thread_nested(g, depth, len, start, t));
    assert(walk_ok(g, subject, first, seq![t]));
    lemma_walked_nested(g, depth, subject, start, first, seq![t]);
    let pass = pass_from(g, subject, t);
    lemma_spans_first(pass.best, start, pass.longest);
}

/// The position at which the search that begins at the position `start` finds its match: the
/// first position at which one of its passes matches. Where no pass matches, it is a position
/// after the end of the subject.
pub open spec fn match_start(g: Seq<StateView>, subject: Seq<char>, start: nat) -> nat
    decreases subject.len() + 1 - start,
{
    if start > subject.len() {
        start
    } else {
        let pass = pass_from(g, subject, seed(subject.len(), start));
        let reached = if pass.furthest > start {
            pass.furthest
        } else {
            start
        };
        if pass.matched {
            start
        } else if reached >= subject.len() {
            subject.len() + 1
        } else {
            match_start(g, subject, reached + 1)
        }
    }
}

/// What a search reports that has found a match, for the search that begins at `from`.
pub open spec fn reports_longest(g: Seq<StateView>, subject: Seq<char>, from: nat) -> bool {
    let start = match_start(g, subject, from);
    let origin = Place { node: 0, pos: start };
    let found = searched(g, subject, from).1;
    &&& from <= start <= subject.len()
    &&& exists|end: nat| accepts_to(g, subject, origin, end)
    &&& start < subject.len() ==> {
        &&& found.len() > 0
        &&& found[0].0 == start
        &&& found[0].0 <= found[0].1 <= subject.len()
        &&& accepts_to(g, subject, origin, found[0].1)
        &&& forall|end: nat| #[trigger] accepts_to(g, subject, origin, end) ==> end <= found[0].1
    }
}

proof fn lemma_search_reports(p: PatternView, subject: Seq<char>, from: nat)
    requires
        compilable(p),
        searched(compiled(p), subject, from).0,
    ensures
        reports_longest(compiled(p), subject, from),
    decreases subject.len() + 1 - from,
{
    let g = compiled(p);
    let len = subject.len();
    if from <= len {
        let t = seed(len, from);
        let pass = pass_from(g, subject, t);
        let reached = if pass.furthest > from {
            pass.furthest
        } else {
            from
        };
        if pass.matched {
            lemma_compiled_bracketed(p);
            pass_finds_longest(g, subject, t);
            assert(place_of(t) == Place { node: 0, pos: from });
            if from < len {
                whole_match_first(p, subject, from);
            }
        } else if reached >= len {
        } else {
            lemma_search_reports(p, subject, reached + 1);
        }
    }
}

/// The match that a search reports. Where the search over the graph of a pattern finds a match,
/// it is the match of the first of its passes that matches. If that pass began before the end
/// of the subject, the first submatch of the report is the whole match: it begins where the
/// pass began, it ends where a path through the graph ends a match, and no path from where the
/// pass began ends a match at a later position.
pub proof fn search_reports_longest(p: PatternView, subject: Seq<char>)
    requires
        compilable(p),
        searched(compiled(p), subject, 0).0,
    ensures
        reports_longest(compiled(p), subject, 0),
{
    lemma_search_reports(p, subject, 0);
}

} // verus!
