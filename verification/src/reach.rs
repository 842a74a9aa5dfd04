//! What a pass of the simulator finds, stated over the paths through the graph: a pass visits
//! exactly the places that can be reached from where it begins, and the match that it reports
//! ends at the furthest position at which any path ends.

use crate::matching::{
    begun, cleared, lemma_round, lemma_stepped, pass_from, pass_ok, round, scheduled, stepped,
    table_fits, table_grows, unseen, walk_ok, walked, Pass, Thread,
};
use crate::state::{closed_state, well_formed, StateView};
use vstd::prelude::*;

verus! {

/// A state of the graph together with a position in the subject.
pub struct Place {
    pub node: nat,
    pub pos: nat,
}

/// How many characters a state consumes: what its matcher consumes, or nothing.
pub open spec fn advance_of(state: StateView) -> nat {
    match state.matcher {
        Some(kind) => kind.width(),
        None => 0,
    }
}

/// A thread can go from the place `from` to the place `to` in one step: the matcher of the
/// state accepts the subject, the state leads to the other state, and what the matcher consumes
/// lies within the subject.
pub open spec fn step_ok(g: Seq<StateView>, subject: Seq<char>, from: Place, to: Place) -> bool {
    let state = g[from.node as int];
    &&& from.node < g.len()
    &&& state.matcher is Some ==> state.matcher->0.accepts(subject, from.pos)
    &&& to.pos == from.pos + advance_of(state)
    &&& to.pos <= subject.len()
    &&& (state.out == Some(to.node) || state.out1 == Some(to.node))
}

/// The places are a path from `start` to `to`: the first is `start`, the last is `to`, and a
/// thread can go from each to the next in one step.
pub open spec fn is_path(
    g: Seq<StateView>,
    subject: Seq<char>,
    start: Place,
    to: Place,
    path: Seq<Place>,
) -> bool {
    &&& path.len() > 0
    &&& path[0] == start
    &&& path.last() == to
    &&& forall|i: int|
        0 <= i < path.len() - 1 ==> step_ok(g, subject, #[trigger] path[i], path[i + 1])
}

/// There is a path from the place `start` to the place `to`.
pub open spec fn reachable(g: Seq<StateView>, subject: Seq<char>, start: Place, to: Place) -> bool {
    exists|path: Seq<Place>| is_path(g, subject, start, to, path)
}

/// A path from `start` ends a match at the position `end`: it leads to a state without
/// successors at that position.
pub open spec fn accepts_to(g: Seq<StateView>, subject: Seq<char>, start: Place, end: nat) -> bool {
    exists|node: nat|
        node < g.len() && g[node as int].is_last() && #[trigger] reachable(
            g,
            subject,
            start,
            Place { node, pos: end },
        )
}

/// The place is noted in the table.
pub open spec fn noted(seen: Seq<Seq<bool>>, c: Place) -> bool {
    c.pos < seen.len() && c.node < seen[c.pos as int].len() && seen[c.pos as int][c.node as int]
}

/// The place of a thread.
pub open spec fn place_of(t: Thread) -> Place {
    Place { node: t.node, pos: t.pos }
}

/// A thread at the place `c` waits for its step, in this round or in the next one.
pub open spec fn pending(current: Seq<Thread>, from: int, next: Seq<Thread>, c: Place) -> bool {
    ||| exists|i: int| from <= i < current.len() && place_of(#[trigger] current[i]) == c
    ||| exists|i: int| 0 <= i < next.len() && place_of(#[trigger] next[i]) == c
}

/// The pass is done with the place `c`: every place that can be reached from it in one step is
/// noted, and if a match ends there, the best match ends no earlier.
pub open spec fn settled(g: Seq<StateView>, subject: Seq<char>, acc: Pass, c: Place) -> bool {
    &&& forall|d: Place| #[trigger] step_ok(g, subject, c, d) ==> noted(acc.seen, d)
    &&& g[c.node as int].is_last() ==> acc.matched && c.pos <= acc.longest
}

/// What is true of a pass that began at the place `start`, while the threads of `current` from
/// the index `from` on and the threads scheduled for the next round wait for their step.
pub open spec fn walk_inv(
    g: Seq<StateView>,
    subject: Seq<char>,
    start: Place,
    acc: Pass,
    current: Seq<Thread>,
    from: int,
) -> bool {
    &&& pass_ok(g, subject, acc)
    &&& noted(acc.seen, start)
    &&& forall|i: int|
        0 <= i < current.len() ==> (#[trigger] current[i]).fits(g.len(), subject.len()) && noted(
            acc.seen,
            place_of(current[i]),
        )
    &&& forall|c: Place| #[trigger] noted(acc.seen, c) ==> reachable(g, subject, start, c)
    &&& forall|c: Place|
        #[trigger] noted(acc.seen, c) && !pending(current, from, acc.next, c) ==> settled(
            g,
            subject,
            acc,
            c,
        )
    &&& !acc.matched ==> acc.longest == 0
    &&& acc.matched ==> exists|node: nat|
        node < g.len() && g[node as int].is_last() && #[trigger] noted(
            acc.seen,
            Place { node, pos: acc.longest },
        )
}

/// The list `after` begins with the list `before`.
pub open spec fn extends(before: Seq<Thread>, after: Seq<Thread>) -> bool {
    &&& before.len() <= after.len()
    &&& forall|i: int| 0 <= i < before.len() ==> #[trigger] after[i] == before[i]
}

/// What scheduling a thread changes: the target is noted afterwards, nothing else is noted that
/// was not noted before, and the threads scheduled before stay scheduled.
proof fn lemma_scheduled_noted(
    g: Seq<StateView>,
    subject: Seq<char>,
    acc: Pass,
    target: Option<nat>,
    pos: nat,
    t: Thread,
)
    requires
        table_fits(acc.seen, g.len(), subject.len()),
        pos <= subject.len(),
        target is Some ==> target->0 < g.len(),
    ensures
        table_fits(scheduled(acc, target, pos, t).seen, g.len(), subject.len()),
        forall|d: Place|
            #[trigger] noted(scheduled(acc, target, pos, t).seen, d) <==> noted(acc.seen, d) || (
            target == Some(d.node) && d.pos == pos),
        extends(acc.next, scheduled(acc, target, pos, t).next),
        forall|i: int|
            acc.next.len() <= i < scheduled(acc, target, pos, t).next.len() ==> place_of(
                #[trigger] scheduled(acc, target, pos, t).next[i],
            ) == (Place { node: target->0, pos }),
        scheduled(acc, target, pos, t).matched == acc.matched,
        scheduled(acc, target, pos, t).longest == acc.longest,
{
    let after = scheduled(acc, target, pos, t);
    assert(acc.seen[pos as int].len() == g.len());
    assert forall|p: int| 0 <= p <= subject.len() implies (#[trigger] after.seen[p]).len()
        == g.len() by {
        assert(acc.seen[p].len() == g.len());
    }
    assert forall|d: Place| #[trigger]
        noted(after.seen, d) <==> noted(acc.seen, d) || (target == Some(d.node) && d.pos
            == pos) by {
        if d.pos < acc.seen.len() {
            assert(acc.seen[d.pos as int].len() == g.len());
            assert(after.seen[d.pos as int].len() == g.len());
        }
    }
}

/// Every place that was noted is still noted in a table that has grown.
proof fn lemma_noted_grows(before: Seq<Seq<bool>>, after: Seq<Seq<bool>>, states: nat, len: nat)
    requires
        table_fits(before, states, len),
        table_fits(after, states, len),
        table_grows(before, after),
    ensures
        forall|c: Place| #[trigger] noted(before, c) ==> noted(after, c),
{
    assert forall|c: Place| #[trigger] noted(before, c) implies noted(after, c) by {
        assert(before[c.pos as int].len() == states);
        assert(after[c.pos as int].len() == states);
        assert(after[c.pos as int][c.node as int]);
    }
}

/// A place that is reached in one step from a place that can be reached can be reached.
pub proof fn lemma_reachable_step(
    g: Seq<StateView>,
    subject: Seq<char>,
    start: Place,
    c: Place,
    d: Place,
)
    requires
        reachable(g, subject, start, c),
        step_ok(g, subject, c, d),
    ensures
        reachable(g, subject, start, d),
{
    let path = choose|path: Seq<Place>| is_path(g, subject, start, c, path);
    let longer = path.push(d);
    assert forall|i: int| 0 <= i < longer.len() - 1 implies step_ok(
        g,
        subject,
        #[trigger] longer[i],
        longer[i + 1],
    ) by {
        if i < path.len() - 1 {
            assert(step_ok(g, subject, path[i], path[i + 1]));
        }
    }
    assert(is_path(g, subject, start, d, longer));
}

/// Every place can be reached from itself.
pub proof fn lemma_reachable_self(g: Seq<StateView>, subject: Seq<char>, c: Place)
    ensures
        reachable(g, subject, c, c),
{
    assert(is_path(g, subject, c, c, seq![c]));
}

/// What can be reached from a place that can be reached can be reached.
pub proof fn lemma_reachable_trans(
    g: Seq<StateView>,
    subject: Seq<char>,
    a: Place,
    b: Place,
    c: Place,
)
    requires
        reachable(g, subject, a, b),
        reachable(g, subject, b, c),
    ensures
        reachable(g, subject, a, c),
{
    let path = choose|path: Seq<Place>| is_path(g, subject, b, c, path);
    lemma_reachable_along(g, subject, a, b, c, path);
}

proof fn lemma_reachable_along(
    g: Seq<StateView>,
    subject: Seq<char>,
    a: Place,
    b: Place,
    c: Place,
    path: Seq<Place>,
)
    requires
        reachable(g, subject, a, b),
        is_path(g, subject, b, c, path),
    ensures
        reachable(g, subject, a, c),
    decreases path.len(),
{
    if path.len() == 1 {
        assert(c == b);
    } else {
        let before = path.drop_last();
        let mid = before.last();
        assert forall|i: int| 0 <= i < before.len() - 1 implies step_ok(
            g,
            subject,
            #[trigger] before[i],
            before[i + 1],
        ) by {
            assert(step_ok(g, subject, path[i], path[i + 1]));
        }
        assert(is_path(g, subject, b, mid, before));
        lemma_reachable_along(g, subject, a, b, mid, before);
        assert(step_ok(g, subject, path[path.len() - 2], path[path.len() - 2 + 1]));
        lemma_reachable_step(g, subject, a, mid, c);
    }
}

/// The state `s` leads to the state at the index `next`.
pub open spec fn leads_to(s: StateView, next: nat) -> bool {
    s.out == Some(next) || s.out1 == Some(next)
}

/// The graph `big` has the states of the graph `small`, with the same matchers and with the
/// same successors or more.
pub open spec fn includes(small: Seq<StateView>, big: Seq<StateView>) -> bool {
    &&& small.len() <= big.len()
    &&& forall|k: int|
        0 <= k < small.len() ==> (#[trigger] big[k]).matcher == small[k].matcher && forall|
            next: nat,
        | #[trigger]
            leads_to(small[k], next) ==> leads_to(big[k], next)
}

/// A path through a graph is a path through a graph that includes it.
pub proof fn lemma_reachable_includes(
    small: Seq<StateView>,
    big: Seq<StateView>,
    subject: Seq<char>,
    a: Place,
    b: Place,
)
    requires
        includes(small, big),
        reachable(small, subject, a, b),
    ensures
        reachable(big, subject, a, b),
{
    let path = choose|path: Seq<Place>| is_path(small, subject, a, b, path);
    assert forall|i: int| 0 <= i < path.len() - 1 implies step_ok(
        big,
        subject,
        #[trigger] path[i],
        path[i + 1],
    ) by {
        assert(step_ok(small, subject, path[i], path[i + 1]));
        let k = path[i].node as int;
        assert(big[k].matcher == small[k].matcher);
        assert(leads_to(small[k], path[i + 1].node));
    }
    assert(is_path(big, subject, a, b, path));
}

/// One step of one thread keeps what is true of a pass.
proof fn lemma_step_inv(
    g: Seq<StateView>,
    subject: Seq<char>,
    start: Place,
    acc: Pass,
    current: Seq<Thread>,
    n: int,
)
    requires
        walk_inv(g, subject, start, acc, current, n),
        0 <= n < current.len(),
    ensures
        walk_inv(g, subject, start, stepped(g, subject, acc, current[n]), current, n + 1),
{
    let t = current[n];
    let c = place_of(t);
    let len = subject.len();
    let state = g[t.node as int];
    let m = t.marked(state.sub, len);
    let after = stepped(g, subject, acc, t);
    assert(t.fits(g.len(), len));
    lemma_stepped(g, subject, acc, t);
    lemma_noted_grows(acc.seen, after.seen, g.len(), len);
    assert(closed_state(g[t.node as int], 0, g.len()));
    assert(m.pos == t.pos && m.node == t.node);
    let advance = advance_of(state);
    let target = t.pos + advance;
    let recorded = state.is_last() && (m.pos > acc.longest || acc.longest == 0);
    let goes_on = !state.is_last() && !(state.matcher is Some && !state.matcher->0.accepts(
        subject,
        m.pos,
    )) && target <= len;
    let acc1 = Pass {
        furthest: if m.pos > acc.furthest {
            m.pos
        } else {
            acc.furthest
        },
        ..acc
    };
    let acc2 = scheduled(acc1, state.out, target, m);
    if goes_on {
        lemma_scheduled_noted(g, subject, acc1, state.out, target, m);
        lemma_scheduled_noted(g, subject, acc2, state.out1, target, m);
        assert(after == scheduled(acc2, state.out1, target, m));
    }
    // The threads scheduled before this step are still scheduled.
    assert(extends(acc.next, after.next)) by {
        if goes_on {
            assert forall|i: int| 0 <= i < acc.next.len() implies #[trigger] after.next[i]
                == acc.next[i] by {
                assert(acc2.next[i] == acc1.next[i]);
            }
        }
    }
    // Whatever is noted after the step was noted before, or is reached from this place.
    assert forall|d: Place| #[trigger] noted(after.seen, d) implies noted(acc.seen, d) || step_ok(
        g,
        subject,
        c,
        d,
    ) by {
        if goes_on {
            if !noted(acc.seen, d) {
                assert(noted(acc2.seen, d) || (state.out1 == Some(d.node) && d.pos == target));
                if noted(acc2.seen, d) {
                    assert(state.out == Some(d.node) && d.pos == target);
                }
            }
        }
    }
    assert forall|d: Place| #[trigger] noted(after.seen, d) implies reachable(
        g,
        subject,
        start,
        d,
    ) by {
        if !noted(acc.seen, d) {
            assert(noted(acc.seen, c));
            lemma_reachable_step(g, subject, start, c, d);
        }
    }
    assert forall|i: int| 0 <= i < current.len() implies (#[trigger] current[i]).fits(
        g.len(),
        len,
    ) && noted(after.seen, place_of(current[i])) by {
        assert(noted(acc.seen, place_of(current[i])));
    }
    // This place is settled now.
    assert(settled(g, subject, after, c)) by {
        assert forall|d: Place| #[trigger] step_ok(g, subject, c, d) implies noted(
            after.seen,
            d,
        ) by {
            assert(!state.is_last());
            assert(goes_on);
            if state.out == Some(d.node) {
                assert(noted(acc2.seen, d));
            }
        }
        if state.is_last() {
            if !recorded {
                assert(acc.longest != 0);
            }
        }
    }
    assert forall|x: Place| #[trigger]
        noted(after.seen, x) && !pending(current, n + 1, after.next, x) implies settled(
        g,
        subject,
        after,
        x,
    ) by {
        if x != c {
            // Every new place is the place of a thread that was scheduled in this step.
            if !noted(acc.seen, x) {
                assert(goes_on);
                if noted(acc2.seen, x) {
                    assert(state.out == Some(x.node) && x.pos == target);
                    assert(acc2.next.len() == acc1.next.len() + 1);
                    assert(place_of(acc2.next[acc1.next.len() as int]) == x);
                    assert(after.next[acc1.next.len() as int] == acc2.next[acc1.next.len() as int]);
                } else {
                    assert(state.out1 == Some(x.node) && x.pos == target);
                    assert(after.next.len() == acc2.next.len() + 1);
                    assert(place_of(after.next[acc2.next.len() as int]) == x);
                }
                assert(false);
            }
            if pending(current, n, acc.next, x) {
                if exists|i: int| n <= i < current.len() && place_of(#[trigger] current[i]) == x {
                    let i = choose|i: int|
                        n <= i < current.len() && place_of(#[trigger] current[i]) == x;
                    assert(i != n);
                    assert(place_of(current[i]) == x);
                } else {
                    let i = choose|i: int|
                        0 <= i < acc.next.len() && place_of(#[trigger] acc.next[i]) == x;
                    assert(after.next[i] == acc.next[i]);
                    assert(place_of(after.next[i]) == x);
                }
                assert(false);
            }
            assert(settled(g, subject, acc, x));
            assert forall|d: Place| #[trigger] step_ok(g, subject, x, d) implies noted(
                after.seen,
                d,
            ) by {
                assert(noted(acc.seen, d));
            }
            if goes_on {
                assert(after.matched == acc.matched && after.longest == acc.longest);
            }
        }
    }
    if after.matched {
        if recorded {
            assert(noted(after.seen, Place { node: t.node, pos: after.longest }));
        } else {
            let node = choose|node: nat|
                node < g.len() && g[node as int].is_last() && #[trigger] noted(
                    acc.seen,
                    Place { node, pos: acc.longest },
                );
            if goes_on {
                assert(after.matched == acc.matched && after.longest == acc.longest);
            }
            assert(noted(after.seen, Place { node, pos: after.longest }));
        }
    } else {
        if goes_on {
            assert(after.matched == acc.matched && after.longest == acc.longest);
        }
    }
}

/// The steps of a round keep what is true of a pass.
proof fn lemma_round_inv(
    g: Seq<StateView>,
    subject: Seq<char>,
    start: Place,
    acc: Pass,
    current: Seq<Thread>,
    n: nat,
)
    requires
        walk_inv(g, subject, start, acc, current, 0),
        n <= current.len(),
    ensures
        walk_inv(g, subject, start, round(g, subject, acc, current, n), current, n as int),
    decreases n,
{
    if n > 0 {
        lemma_round_inv(g, subject, start, acc, current, (n - 1) as nat);
        lemma_step_inv(
            g,
            subject,
            start,
            round(g, subject, acc, current, (n - 1) as nat),
            current,
            n - 1,
        );
    }
}

/// Where nothing waits for its step, every place that can be reached is noted, and the best
/// match ends no earlier than any path.
proof fn lemma_closed(
    g: Seq<StateView>,
    subject: Seq<char>,
    start: Place,
    acc: Pass,
    to: Place,
    path: Seq<Place>,
)
    requires
        walk_inv(g, subject, start, acc, Seq::<Thread>::empty(), 0),
        acc.next.len() == 0,
        is_path(g, subject, start, to, path),
    ensures
        noted(acc.seen, to),
        settled(g, subject, acc, to),
    decreases path.len(),
{
    let none = Seq::<Thread>::empty();
    if path.len() == 1 {
        assert(to == start);
    } else {
        let before = path.drop_last();
        let mid = before.last();
        assert forall|i: int| 0 <= i < before.len() - 1 implies step_ok(
            g,
            subject,
            #[trigger] before[i],
            before[i + 1],
        ) by {
            assert(step_ok(g, subject, path[i], path[i + 1]));
        }
        assert(is_path(g, subject, start, mid, before));
        lemma_closed(g, subject, start, acc, mid, before);
        assert(step_ok(g, subject, path[path.len() - 2], path[path.len() - 2 + 1]));
        assert(step_ok(g, subject, mid, to));
    }
    assert(!pending(none, 0, acc.next, to));
}

/// The walk keeps what is true of a pass, to its end.
proof fn lemma_walked_inv(
    g: Seq<StateView>,
    subject: Seq<char>,
    start: Place,
    acc: Pass,
    current: Seq<Thread>,
)
    requires
        walk_inv(g, subject, start, cleared(acc), current, 0),
    ensures
        walk_inv(
            g,
            subject,
            start,
            cleared(walked(g, subject, acc, current)),
            Seq::<Thread>::empty(),
            0,
        ),
    decreases unseen(acc.seen), current.len(),
{
    assert(walk_ok(g, subject, acc, current));
    if current.len() == 0 {
        assert(current =~= Seq::<Thread>::empty());
    } else {
        let after = round(g, subject, cleared(acc), current, current.len());
        lemma_round(g, subject, cleared(acc), current, current.len());
        lemma_round_inv(g, subject, start, cleared(acc), current, current.len());
        let next = after.next;
        let fresh = cleared(after);
        assert forall|c: Place| #[trigger]
            noted(fresh.seen, c) && !pending(next, 0, fresh.next, c) implies settled(
            g,
            subject,
            fresh,
            c,
        ) by {
            if pending(current, current.len() as int, after.next, c) {
                let i = choose|i: int|
                    0 <= i < after.next.len() && place_of(#[trigger] after.next[i]) == c;
                assert(place_of(next[i]) == c);
                assert(false);
            }
            assert(settled(g, subject, after, c));
        }
        assert forall|i: int| 0 <= i < next.len() implies (#[trigger] next[i]).fits(
            g.len(),
            subject.len(),
        ) && noted(fresh.seen, place_of(next[i])) by {
            assert(after.next[i].fits(g.len(), subject.len()));
            assert(after.seen[after.next[i].pos as int].len() == g.len());
        }
        assert(fresh.next =~= Seq::<Thread>::empty());
        assert(walk_inv(g, subject, start, after, current, current.len() as int));
        assert(pass_ok(g, subject, fresh));
        assert(noted(fresh.seen, start));
        assert forall|c: Place| #[trigger] noted(fresh.seen, c) implies reachable(
            g,
            subject,
            start,
            c,
        ) by {
            assert(noted(after.seen, c));
        }
        assert(!fresh.matched ==> fresh.longest == 0);
        if fresh.matched {
            let node = choose|node: nat|
                node < g.len() && g[node as int].is_last() && #[trigger] noted(
                    after.seen,
                    Place { node, pos: after.longest },
                );
            assert(noted(fresh.seen, Place { node, pos: fresh.longest }));
        }
        assert(walk_inv(g, subject, start, fresh, next, 0));
        lemma_walked_inv(g, subject, start, after, next);
    }
}

/// What a pass finds. A pass that begins with the thread `t` reports a match exactly if some
/// path from the place of `t` leads to a state without successors. The match that it reports
/// ends where such a path ends, and no such path ends at a later position.
pub proof fn pass_finds_longest(g: Seq<StateView>, subject: Seq<char>, t: Thread)
    requires
        well_formed(g),
        t.fits(g.len(), subject.len()),
    ensures
        pass_from(g, subject, t).matched <==> exists|end: nat|
            accepts_to(g, subject, place_of(t), end),
        pass_from(g, subject, t).matched ==> accepts_to(
            g,
            subject,
            place_of(t),
            pass_from(g, subject, t).longest,
        ),
        forall|end: nat| #[trigger]
            accepts_to(g, subject, place_of(t), end) ==> end <= pass_from(g, subject, t).longest,
{
    let start = place_of(t);
    let first = begun(g, subject, t);
    let current = seq![t];
    let none = Seq::<Thread>::empty();
    assert(cleared(first) == first);
    assert(noted(first.seen, start));
    assert forall|c: Place| #[trigger] noted(first.seen, c) implies reachable(
        g,
        subject,
        start,
        c,
    ) by {
        assert(c == start);
        assert(is_path(g, subject, start, c, seq![start]));
    }
    assert forall|c: Place| #[trigger]
        noted(first.seen, c) && !pending(current, 0, first.next, c) implies settled(
        g,
        subject,
        first,
        c,
    ) by {
        assert(c == start);
        assert(place_of(current[0]) == c);
    }
    assert(walk_inv(g, subject, start, first, current, 0));
    lemma_walked_inv(g, subject, start, first, current);
    let pass = pass_from(g, subject, t);
    let done = cleared(pass);
    if pass.matched {
        let node = choose|node: nat|
            node < g.len() && g[node as int].is_last() && #[trigger] noted(
                done.seen,
                Place { node, pos: done.longest },
            );
        assert(reachable(g, subject, start, Place { node, pos: pass.longest }));
        assert(accepts_to(g, subject, start, pass.longest));
    }
    assert forall|end: nat| #[trigger] accepts_to(g, subject, start, end) implies pass.matched
        && end <= pass.longest by {
        let node = choose|node: nat|
            node < g.len() && g[node as int].is_last() && #[trigger] reachable(
                g,
                subject,
                start,
                Place { node, pos: end },
            );
        let to = Place { node, pos: end };
        let path = choose|path: Seq<Place>| is_path(g, subject, start, to, path);
        lemma_closed(g, subject, start, done, to, path);
    }
}

/// No two threads of the list are at the same place.
pub open spec fn distinct_places(ts: Seq<Thread>) -> bool {
    forall|i: int, j: int|
        0 <= i < j < ts.len() ==> place_of(#[trigger] ts[i]) != place_of(#[trigger] ts[j])
}

proof fn lemma_scheduled_distinct(
    g: Seq<StateView>,
    subject: Seq<char>,
    acc: Pass,
    target: Option<nat>,
    pos: nat,
    t: Thread,
)
    requires
        pass_ok(g, subject, acc),
        distinct_places(acc.next),
        pos <= subject.len(),
        target is Some ==> target->0 < g.len(),
    ensures
        distinct_places(scheduled(acc, target, pos, t).next),
{
    let after = scheduled(acc, target, pos, t);
    match target {
        None => {},
        Some(node) => {
            if !acc.seen[pos as int][node as int] {
                assert forall|i: int, j: int| 0 <= i < j < after.next.len() implies place_of(
                    #[trigger] after.next[i],
                ) != place_of(#[trigger] after.next[j]) by {
                    assert(after.next[i] == acc.next[i]);
                    if j < acc.next.len() {
                        assert(after.next[j] == acc.next[j]);
                    } else {
                        // The new thread is at a place that was free; the others are noted.
                        assert(acc.seen[acc.next[i].pos as int][acc.next[i].node as int]);
                    }
                }
            }
        },
    }
}

proof fn lemma_stepped_distinct(g: Seq<StateView>, subject: Seq<char>, acc: Pass, t: Thread)
    requires
        pass_ok(g, subject, acc),
        t.fits(g.len(), subject.len()),
        distinct_places(acc.next),
    ensures
        distinct_places(stepped(g, subject, acc, t).next),
{
    let state = g[t.node as int];
    let len = subject.len();
    let m = t.marked(state.sub, len);
    assert(closed_state(g[t.node as int], 0, g.len()));
    if !state.is_last() {
        let acc1 = Pass {
            furthest: if m.pos > acc.furthest {
                m.pos
            } else {
                acc.furthest
            },
            ..acc
        };
        let target = m.pos + advance_of(state);
        if !(state.matcher is Some && !state.matcher->0.accepts(subject, m.pos)) && target <= len {
            lemma_scheduled_distinct(g, subject, acc1, state.out, target, m);
            let acc2 = scheduled(acc1, state.out, target, m);
            assert(m.fits(g.len(), len)) by {
                assert forall|i: int| 0 <= i < m.open.len() implies (#[trigger] m.open[i])
                    < len by {
                    if i < t.open.len() {
                        assert(t.open[i] < len);
                    }
                }
            }
            crate::matching::lemma_scheduled_ok(g, subject, acc1, state.out, target, m);
            lemma_scheduled_distinct(g, subject, acc2, state.out1, target, m);
        }
    }
}

/// No place twice in a round. Where no two of the threads that are scheduled for the next
/// round are at the same place, no two are after any number of further steps: a thread is
/// scheduled only at a place at which none was scheduled before in this pass.
pub proof fn round_schedules_each_place_once(
    g: Seq<StateView>,
    subject: Seq<char>,
    acc: Pass,
    current: Seq<Thread>,
    n: nat,
)
    requires
        pass_ok(g, subject, acc),
        distinct_places(acc.next),
        n <= current.len(),
        forall|i: int| 0 <= i < current.len() ==> (#[trigger] current[i]).fits(g.len(), subject.len()),
    ensures
        distinct_places(round(g, subject, acc, current, n).next),
    decreases n,
{
    if n > 0 {
        round_schedules_each_place_once(g, subject, acc, current, (n - 1) as nat);
        lemma_round(g, subject, acc, current, (n - 1) as nat);
        lemma_stepped_distinct(
            g,
            subject,
            round(g, subject, acc, current, (n - 1) as nat),
            current[n - 1],
        );
    }
}

} // verus!
