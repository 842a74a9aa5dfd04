//! The simulator: it walks all live states of a graph over the subject in lock-step and records
//! where the submatches begin and end.
//!
//! The walk is described twice. The mathematical description, on sequences and numbers, says
//! what one pass over the subject yields; the executable functions are proved to compute
//! exactly that.

use crate::matcher::{rc_clone, spaces, Matchee};
use crate::state::{
    count_false, graph_view, index_view, lemma_count_false_update, refs_view, well_formed,
    StateGraph, StateRef, StateView, Submatch,
};
use crate::text::{append_decimal, append_str, decimal, string_of};
use std::rc::Rc;
use vstd::prelude::*;

verus! {

/// One live state of the walk: a state of the graph, a position in the subject, the submatches
/// recorded on the way here, and the positions of the submatches that are still open.
pub struct Thread {
    /// The index of the state in the graph.
    pub node: nat,
    /// The position in the subject.
    pub pos: nat,
    /// The capture map: at the index of a position where a submatch began, the position where
    /// it ended.
    pub captures: Seq<Option<nat>>,
    /// The positions where the submatches began that have not ended yet, innermost last.
    pub open: Seq<nat>,
}

impl Thread {
    /// The thread after the submatch mark of its state has been applied. A start is recorded
    /// only before the end of the subject; an end closes the innermost open submatch, if there
    /// is one.
    pub open spec fn marked(self, sub: Option<Submatch>, len: nat) -> Thread {
        match sub {
            Some(Submatch::Start) => if self.pos < len {
                Thread { open: self.open.push(self.pos), ..self }
            } else {
                self
            },
            Some(Submatch::End) => if self.open.len() > 0 {
                Thread {
                    open: self.open.drop_last(),
                    captures: self.captures.update(self.open.last() as int, Some(self.pos)),
                    ..self
                }
            } else {
                self
            },
            None => self,
        }
    }

    /// The thread at another state and position, with the same submatches.
    pub open spec fn moved(self, node: nat, pos: nat) -> Thread {
        Thread { node, pos, ..self }
    }

    /// The thread fits the graph and the subject: its state is one of the graph, its position
    /// is within the subject or at its end, the capture map has a place for every position, and
    /// every open submatch began before the end of the subject.
    pub open spec fn fits(self, states: nat, len: nat) -> bool {
        &&& self.node < states
        &&& self.pos <= len
        &&& self.captures.len() == len + 1
        &&& forall|i: int| 0 <= i < self.open.len() ==> (#[trigger] self.open[i]) < len
    }
}

/// What a pass has found so far.
pub struct Pass {
    /// For each position and each state, whether a thread was ever scheduled there.
    pub seen: Seq<Seq<bool>>,
    /// The threads scheduled for the next round, in the order in which they were scheduled.
    pub next: Seq<Thread>,
    /// Whether a thread has reached a state without successors.
    pub matched: bool,
    /// The position of the best such thread.
    pub longest: nat,
    /// The capture map of the best such thread.
    pub best: Seq<Option<nat>>,
    /// The furthest position that any thread has reached without ending a match.
    pub furthest: nat,
}

/// The pass with one more thread scheduled at the state `target`, unless there is no target or
/// a thread was scheduled at that state and position before.
pub open spec fn scheduled(acc: Pass, target: Option<nat>, pos: nat, t: Thread) -> Pass {
    match target {
        None => acc,
        Some(node) => if acc.seen[pos as int][node as int] {
            acc
        } else {
            Pass {
                seen: acc.seen.update(pos as int, acc.seen[pos as int].update(node as int, true)),
                next: acc.next.push(t.moved(node, pos)),
                ..acc
            }
        },
    }
}

/// The pass after one thread has taken its step.
///
/// The submatch mark of the thread's state is applied first. At a state without successors the
/// thread ends a match and goes no further; it becomes the best match if it is at a later
/// position than the best so far, or if the best so far is at position 0. At any other state
/// the thread's position counts as reached, its matcher must accept the subject there, and the
/// thread is scheduled at each successor, after what the matcher consumes, if that is still
/// within the subject.
pub open spec fn stepped(g: Seq<StateView>, subject: Seq<char>, acc: Pass, t: Thread) -> Pass {
    let state = g[t.node as int];
    let t = t.marked(state.sub, subject.len());
    if state.is_last() {
        if t.pos > acc.longest || acc.longest == 0 {
            Pass { matched: true, best: t.captures, longest: t.pos, ..acc }
        } else {
            acc
        }
    } else {
        let acc = Pass {
            furthest: if t.pos > acc.furthest {
                t.pos
            } else {
                acc.furthest
            },
            ..acc
        };
        let advance = match state.matcher {
            Some(kind) => kind.width(),
            None => 0,
        };
        if state.matcher is Some && !state.matcher->0.accepts(subject, t.pos) {
            acc
        } else if t.pos + advance > subject.len() {
            acc
        } else {
            scheduled(scheduled(acc, state.out, t.pos + advance, t), state.out1, t.pos + advance, t)
        }
    }
}

/// The pass after the first `n` of the threads `current` have taken their step, in order.
pub open spec fn round(
    g: Seq<StateView>,
    subject: Seq<char>,
    acc: Pass,
    current: Seq<Thread>,
    n: nat,
) -> Pass
    decreases n,
{
    if n == 0 || n > current.len() {
        acc
    } else {
        stepped(g, subject, round(g, subject, acc, current, (n - 1) as nat), current[n - 1])
    }
}

/// How many pairs of a position and a state no thread was scheduled at yet.
pub open spec fn unseen(seen: Seq<Seq<bool>>) -> nat
    decreases seen.len(),
{
    if seen.len() == 0 {
        0
    } else {
        unseen(seen.drop_last()) + count_false(seen.last())
    }
}

/// The table `seen` has a row for each position up to `len` and in it an entry for each state.
pub open spec fn table_fits(seen: Seq<Seq<bool>>, states: nat, len: nat) -> bool {
    &&& seen.len() == len + 1
    &&& forall|p: int| 0 <= p <= len ==> (#[trigger] seen[p]).len() == states
}

/// Every thread of `ts` fits, and was noted in the table.
pub open spec fn threads_fit(ts: Seq<Thread>, seen: Seq<Seq<bool>>, states: nat, len: nat) -> bool {
    forall|i: int|
        0 <= i < ts.len() ==> (#[trigger] ts[i]).fits(states, len) && seen[ts[i].pos as int][ts[i].node as int]
}

proof fn lemma_unseen_update(seen: Seq<Seq<bool>>, p: int, n: int)
    requires
        0 <= p < seen.len(),
        0 <= n < seen[p].len(),
        !seen[p][n],
    ensures
        unseen(seen.update(p, seen[p].update(n, true))) + 1 == unseen(seen),
    decreases seen.len(),
{
    let after = seen.update(p, seen[p].update(n, true));
    if p == seen.len() - 1 {
        assert(after.drop_last() =~= seen.drop_last());
        lemma_count_false_update(seen[p], n);
    } else {
        lemma_unseen_update(seen.drop_last(), p, n);
        assert(after.drop_last() =~= seen.drop_last().update(p, seen[p].update(n, true)));
    }
}

proof fn lemma_count_false_bound(row: Seq<bool>)
    ensures
        count_false(row) <= row.len(),
    decreases row.len(),
{
    if row.len() > 0 {
        lemma_count_false_bound(row.drop_last());
    }
}

/// A table with `rows` rows of `states` entries each has at most `rows * states` entries that
/// are false.
pub proof fn lemma_unseen_bound(seen: Seq<Seq<bool>>, states: nat)
    requires
        forall|p: int| 0 <= p < seen.len() ==> (#[trigger] seen[p]).len() == states,
    ensures
        unseen(seen) <= seen.len() * states,
    decreases seen.len(),
{
    if seen.len() > 0 {
        let rest = seen.drop_last();
        assert forall|p: int| 0 <= p < rest.len() implies (#[trigger] rest[p]).len() == states by {
            assert(rest[p] == seen[p]);
        }
        lemma_unseen_bound(rest, states);
        lemma_count_false_bound(seen.last());
        assert(seen.len() * states == rest.len() * states + states) by (nonlinear_arith)
            requires
                seen.len() == rest.len() + 1,
        ;
    } else {
        assert(seen.len() * states == 0) by (nonlinear_arith)
            requires
                seen.len() == 0,
        ;
    }
}

/// What holds of a pass between two steps: the table has the right size, and the threads
/// scheduled for the next round fit and are noted in the table.
pub open spec fn pass_ok(g: Seq<StateView>, subject: Seq<char>, acc: Pass) -> bool {
    &&& well_formed(g)
    &&& table_fits(acc.seen, g.len(), subject.len())
    &&& threads_fit(acc.next, acc.seen, g.len(), subject.len())
}

/// The table `after` notes at least what the table `before` notes.
pub open spec fn table_grows(before: Seq<Seq<bool>>, after: Seq<Seq<bool>>) -> bool {
    forall|p: int, n: int|
        0 <= p < before.len() && 0 <= n < before[p].len() && before[p][n] ==> #[trigger] after[p][n]
}

proof fn lemma_marked_fits(t: Thread, sub: Option<Submatch>, states: nat, len: nat)
    requires
        t.fits(states, len),
    ensures
        t.marked(sub, len).fits(states, len),
        t.marked(sub, len).node == t.node,
        t.marked(sub, len).pos == t.pos,
{
    let m = t.marked(sub, len);
    assert forall|i: int| 0 <= i < m.open.len() implies (#[trigger] m.open[i]) < len by {
        if i < t.open.len() {
            assert(t.open[i] < len);
        }
    }
}

/// Scheduling a thread keeps the pass in order and notes the place of the thread.
pub proof fn lemma_scheduled_ok(
    g: Seq<StateView>,
    subject: Seq<char>,
    acc: Pass,
    target: Option<nat>,
    pos: nat,
    t: Thread,
)
    requires
        pass_ok(g, subject, acc),
        t.fits(g.len(), subject.len()),
        pos <= subject.len(),
        target is Some ==> target->0 < g.len(),
    ensures
        pass_ok(g, subject, scheduled(acc, target, pos, t)),
        table_grows(acc.seen, scheduled(acc, target, pos, t).seen),
        unseen(scheduled(acc, target, pos, t).seen) + scheduled(acc, target, pos, t).next.len()
            == unseen(acc.seen) + acc.next.len(),
        target is Some ==> scheduled(acc, target, pos, t).seen[pos as int][target->0 as int],
{
    let after = scheduled(acc, target, pos, t);
    match target {
        None => {},
        Some(node) => {
            if !acc.seen[pos as int][node as int] {
                lemma_unseen_update(acc.seen, pos as int, node as int);
                assert(acc.seen[pos as int].len() == g.len());
                assert forall|p: int| 0 <= p <= subject.len() implies (#[trigger] after.seen[p]).len()
                    == g.len() by {
                    assert(acc.seen[p].len() == g.len());
                }
                assert forall|i: int| 0 <= i < after.next.len() implies (
                #[trigger] after.next[i]).fits(g.len(), subject.len())
                    && after.seen[after.next[i].pos as int][after.next[i].node as int] by {
                    if i < acc.next.len() {
                        assert(acc.next[i].fits(g.len(), subject.len()));
                        assert(after.next[i] == acc.next[i]);
                        assert(acc.seen[acc.next[i].pos as int].len() == g.len());
                    } else {
                        let m = t.moved(node, pos);
                        assert(after.next[i] == m);
                        assert forall|k: int| 0 <= k < m.open.len() implies (#[trigger] m.open[k])
                            < subject.len() by {
                            assert(t.open[k] < subject.len());
                        }
                    }
                }
                assert forall|p: int, n: int|
                    0 <= p < acc.seen.len() && 0 <= n < acc.seen[p].len()
                        && acc.seen[p][n] implies #[trigger] after.seen[p][n] by {}
            }
        },
    }
}

/// One step keeps the pass in order, only adds to the table, and notes in the table each thread
/// that it schedules.
pub proof fn lemma_stepped(g: Seq<StateView>, subject: Seq<char>, acc: Pass, t: Thread)
    requires
        pass_ok(g, subject, acc),
        t.fits(g.len(), subject.len()),
    ensures
        pass_ok(g, subject, stepped(g, subject, acc, t)),
        table_grows(acc.seen, stepped(g, subject, acc, t).seen),
        unseen(stepped(g, subject, acc, t).seen) + stepped(g, subject, acc, t).next.len() == unseen(
            acc.seen,
        ) + acc.next.len(),
{
    let state = g[t.node as int];
    let len = subject.len();
    let m = t.marked(state.sub, len);
    lemma_marked_fits(t, state.sub, g.len(), len);
    assert(closed_state_of(g, t.node));
    if state.is_last() {
    } else {
        let acc1 = Pass {
            furthest: if m.pos > acc.furthest {
                m.pos
            } else {
                acc.furthest
            },
            ..acc
        };
        let advance = match state.matcher {
            Some(kind) => kind.width(),
            None => 0,
        };
        if state.matcher is Some && !state.matcher->0.accepts(subject, m.pos) {
        } else if m.pos + advance > len {
        } else {
            lemma_scheduled_ok(g, subject, acc1, state.out, m.pos + advance, m);
            let acc2 = scheduled(acc1, state.out, m.pos + advance, m);
            lemma_scheduled_ok(g, subject, acc2, state.out1, m.pos + advance, m);
            let acc3 = scheduled(acc2, state.out1, m.pos + advance, m);
            assert forall|p: int, n: int|
                0 <= p < acc.seen.len() && 0 <= n < acc.seen[p].len()
                    && acc.seen[p][n] implies #[trigger] acc3.seen[p][n] by {
                assert(acc2.seen[p][n]);
                assert(acc2.seen[p].len() == g.len());
                assert(acc.seen[p].len() == g.len());
            }
        }
    }
}

/// The successors of the state at `node` are states of the graph.
pub open spec fn closed_state_of(g: Seq<StateView>, node: nat) -> bool {
    crate::state::closed_state(g[node as int], 0, g.len())
}

/// A round keeps the pass in order, and every thread that it schedules takes a place in the
/// table that was free.
pub proof fn lemma_round(
    g: Seq<StateView>,
    subject: Seq<char>,
    acc: Pass,
    current: Seq<Thread>,
    n: nat,
)
    requires
        pass_ok(g, subject, acc),
        n <= current.len(),
        forall|i: int| 0 <= i < current.len() ==> (#[trigger] current[i]).fits(g.len(), subject.len()),
    ensures
        pass_ok(g, subject, round(g, subject, acc, current, n)),
        table_grows(acc.seen, round(g, subject, acc, current, n).seen),
        unseen(round(g, subject, acc, current, n).seen) + round(g, subject, acc, current, n).next.len()
            == unseen(acc.seen) + acc.next.len(),
    decreases n,
{
    if n > 0 {
        lemma_round(g, subject, acc, current, (n - 1) as nat);
        let before = round(g, subject, acc, current, (n - 1) as nat);
        lemma_stepped(g, subject, before, current[n - 1]);
        let after = round(g, subject, acc, current, n);
        assert forall|p: int, k: int|
            0 <= p < acc.seen.len() && 0 <= k < acc.seen[p].len()
                && acc.seen[p][k] implies #[trigger] after.seen[p][k] by {
            assert(before.seen[p][k]);
            assert(before.seen[p].len() == g.len());
            assert(acc.seen[p].len() == g.len());
        }
    }
}

/// What is true of a walk before a round: the graph can be walked, the table has the right
/// size, and the threads of the round fit.
pub open spec fn walk_ok(g: Seq<StateView>, subject: Seq<char>, acc: Pass, current: Seq<Thread>)
    -> bool {
    &&& well_formed(g)
    &&& table_fits(acc.seen, g.len(), subject.len())
    &&& forall|i: int|
        0 <= i < current.len() ==> (#[trigger] current[i]).fits(g.len(), subject.len())
}

/// The pass at the start of a round: nothing is scheduled for the round after it yet.
pub open spec fn cleared(acc: Pass) -> Pass {
    Pass { next: Seq::empty(), ..acc }
}

/// The pass after the walk has come to an end: the threads `current` take their steps, then
/// the threads that they scheduled, and so on until a round schedules none.
pub open spec fn walked(g: Seq<StateView>, subject: Seq<char>, acc: Pass, current: Seq<Thread>)
    -> Pass
    decreases unseen(acc.seen), current.len(),
    when walk_ok(g, subject, acc, current)
{
    if current.len() == 0 {
        acc
    } else {
        let after = round(g, subject, cleared(acc), current, current.len());
        proof {
            lemma_round(g, subject, cleared(acc), current, current.len());
        }
        walked(g, subject, after, after.next)
    }
}

/// How many rounds the walk takes.
pub open spec fn rounds(g: Seq<StateView>, subject: Seq<char>, acc: Pass, current: Seq<Thread>)
    -> nat
    decreases unseen(acc.seen), current.len(),
    when walk_ok(g, subject, acc, current)
{
    if current.len() == 0 {
        0
    } else {
        let after = round(g, subject, cleared(acc), current, current.len());
        proof {
            lemma_round(g, subject, cleared(acc), current, current.len());
        }
        1 + rounds(g, subject, after, after.next)
    }
}

/// A walk takes at most one round more than there are free places in the table.
pub proof fn lemma_rounds_bound(
    g: Seq<StateView>,
    subject: Seq<char>,
    acc: Pass,
    current: Seq<Thread>,
)
    requires
        walk_ok(g, subject, acc, current),
    ensures
        rounds(g, subject, acc, current) <= unseen(acc.seen) + 1,
        current.len() == 0 ==> rounds(g, subject, acc, current) == 0,
    decreases unseen(acc.seen), current.len(),
{
    if current.len() > 0 {
        let after = round(g, subject, cleared(acc), current, current.len());
        lemma_round(g, subject, cleared(acc), current, current.len());
        assert forall|i: int| 0 <= i < after.next.len() implies (#[trigger] after.next[i]).fits(
            g.len(),
            subject.len(),
        ) by {}
        lemma_rounds_bound(g, subject, after, after.next);
    }
}

/// The table in which only the pair of the position `pos` and the state `node` is noted.
pub open spec fn first_table(states: nat, len: nat, pos: nat, node: nat) -> Seq<Seq<bool>> {
    Seq::new(len + 1, |p: int| Seq::new(states, |n: int| p == pos && n == node))
}

/// The pass before its first round, with the thread `t` as the only one.
pub open spec fn begun(g: Seq<StateView>, subject: Seq<char>, t: Thread) -> Pass {
    Pass {
        seen: first_table(g.len(), subject.len(), t.pos, t.node),
        next: Seq::empty(),
        matched: false,
        longest: 0,
        best: Seq::empty(),
        furthest: 0,
    }
}

/// What one pass yields that begins with the thread `t` alone.
pub open spec fn pass_from(g: Seq<StateView>, subject: Seq<char>, t: Thread) -> Pass {
    walked(g, subject, begun(g, subject, t), seq![t])
}

/// The walk comes to an end: a pass that begins with one thread takes no more rounds than there
/// are pairs of a position of the subject, its end included, and a state of the graph. No pair
/// is scheduled twice in one pass, and every round but the last schedules at least one.
pub proof fn pass_rounds_bounded(g: Seq<StateView>, subject: Seq<char>, t: Thread)
    requires
        well_formed(g),
        t.fits(g.len(), subject.len()),
    ensures
        rounds(g, subject, begun(g, subject, t), seq![t]) <= (subject.len() + 1) * g.len(),
{
    let blank = Seq::new(subject.len() + 1, |p: int| Seq::new(g.len(), |n: int| false));
    let first = first_table(g.len(), subject.len(), t.pos, t.node);
    assert(first =~= blank.update(t.pos as int, blank[t.pos as int].update(t.node as int, true)))
        by {
        assert forall|p: int| 0 <= p < first.len() implies first[p] =~= blank.update(
            t.pos as int,
            blank[t.pos as int].update(t.node as int, true),
        )[p] by {}
    }
    lemma_unseen_update(blank, t.pos as int, t.node as int);
    lemma_unseen_bound(blank, g.len());
    let acc = begun(g, subject, t);
    assert(walk_ok(g, subject, acc, seq![t]));
    lemma_rounds_bound(g, subject, acc, seq![t]);
}

/// The thread with which a pass begins at the position `start`: it is at the first state of the
/// graph and has recorded nothing.
pub open spec fn seed(len: nat, start: nat) -> Thread {
    Thread {
        node: 0,
        pos: start,
        captures: Seq::new(len + 1, |i: int| None::<nat>),
        open: Seq::empty(),
    }
}

/// The submatches of a capture map: for each position at which an end is recorded, in order,
/// the position and the end.
pub open spec fn spans(captures: Seq<Option<nat>>) -> Seq<(nat, nat)>
    decreases captures.len(),
{
    if captures.len() == 0 {
        Seq::empty()
    } else {
        let rest = spans(captures.drop_last());
        match captures.last() {
            Some(end) => rest.push(((captures.len() - 1) as nat, end)),
            None => rest,
        }
    }
}

/// The result of the search that begins at the position `start`: the submatches of the first
/// pass that matches. After a pass without a match, the next one begins after the furthest
/// position that the pass reached, and at least one position further on; the last one begins at
/// the end of the subject.
pub open spec fn searched(g: Seq<StateView>, subject: Seq<char>, start: nat) -> (bool, Seq<
    (nat, nat),
>)
    decreases subject.len() + 1 - start,
{
    if start > subject.len() {
        (false, Seq::empty())
    } else {
        let pass = pass_from(g, subject, seed(subject.len(), start));
        let reached = if pass.furthest > start {
            pass.furthest
        } else {
            start
        };
        if pass.matched {
            (true, spans(pass.best))
        } else if reached >= subject.len() {
            (false, Seq::empty())
        } else {
            searched(g, subject, reached + 1)
        }
    }
}

/// Recorded ends as numbers.
pub open spec fn caps_view(v: Seq<Option<usize>>) -> Seq<Option<nat>> {
    Seq::new(
        v.len(),
        |i: int|
            match v[i] {
                Some(end) => Some(end as nat),
                None => None,
            },
    )
}

/// Submatches as pairs of numbers.
pub open spec fn pairs_view(v: Seq<(usize, usize)>) -> Seq<(nat, nat)> {
    Seq::new(v.len(), |i: int| (v[i].0 as nat, v[i].1 as nat))
}

/// A successor in a trace: the index as an option, a closing angle bracket, a space, and the
/// label of the state, if there is one.
pub open spec fn successor_text(g: Seq<StateView>, next: Option<nat>) -> Seq<char> {
    match next {
        Some(ix) => "Some("@ + decimal(ix) + ")> "@ + g[ix as int].label(),
        None => "None> "@,
    }
}

/// A thread in one line for a trace of the walk.
pub open spec fn debug_text(g: Seq<StateView>, subject: Seq<char>, t: Thread) -> Seq<char> {
    subject + seq!['\n'] + spaces(t.pos) + seq!['^'] + "   (<"@ + decimal(t.node)
        + "> next: 1. <"@ + successor_text(g, g[t.node as int].out) + " 2. <"@ + successor_text(
        g,
        g[t.node as int].out1,
    ) + ")\n"@
}

fn append_successor(out: &mut Vec<char>, sg: &StateGraph, next: Option<StateRef>)
    requires
        next is Some ==> next->0 < sg@.len(),
    ensures
        final(out)@ == old(out)@ + successor_text(graph_view(sg@), index_view(next)),
{
    match next {
        Some(ix) => {
            let label = sg[ix].to_string();
            append_str(out, "Some(");
            append_decimal(out, ix);
            append_str(out, ")> ");
            append_str(out, label.as_str());
            assert(graph_view(sg@)[ix as int] == sg@[ix as int]@);
            assert(out@ =~= old(out)@ + successor_text(graph_view(sg@), index_view(next)));
        },
        None => {
            append_str(out, "None> ");
        },
    }
}

/// MatchState stores a state in the overall algorithm while matching a string ("matchee")
/// against a regular expression. Every time there is more than one forward state (e.g. optional
/// repetitions), the state can be "forked", meaning a new state is produced, that can be used
/// later if some part of the regular expression doesn't match and we need to go back.
#[derive(Debug)]
pub struct MatchState {
    /// The current node in the StateGraph.
    node: StateRef,
    /// String that we are working on and position in it.
    matchee: Matchee,
    /// The set of submatches encountered, indexed by the start of a submatch. If submatches
    /// (with (start,end)) (1,3),(5,10) have been encountered, then submatches[1] = Some(3) and
    /// submatches[5] = Some(10). If the contents is None, then the end has not yet been
    /// encountered. Two submatches that start at the same position share one entry.
    submatches: Rc<Vec<Option<usize>>>,
    /// The starts of the submatches that are open. Both vectors are shared between forks and
    /// copied only when a submatch starts or ends.
    submatches_todo: Rc<Vec<usize>>,
    /// Currently unused
    debug: bool,
}

impl View for MatchState {
    type V = Thread;

    closed spec fn view(&self) -> Thread {
        Thread {
            node: self.node as nat,
            pos: self.matchee@.ix,
            captures: caps_view(self.submatches@),
            open: refs_view(self.submatches_todo@),
        }
    }
}

impl Clone for MatchState {
    fn clone(&self) -> (r: Self)
        ensures
            r@ == self@,
            r.subject() == self.subject(),
    {
        MatchState {
            node: self.node,
            matchee: self.matchee.clone(),
            submatches: rc_clone(&self.submatches),
            submatches_todo: rc_clone(&self.submatches_todo),
            debug: self.debug,
        }
    }
}

/// A capture map for a subject of `len` characters in which nothing is recorded.
fn empty_captures(len: usize) -> (r: Vec<Option<usize>>)
    ensures
        r@.len() == len + 1,
        caps_view(r@) == Seq::new((len + 1) as nat, |i: int| None::<nat>),
{
    let mut r: Vec<Option<usize>> = Vec::new();
    r.push(None);
    let mut i: usize = 0;
    while i < len
        invariant
            i <= len,
            r@.len() == i + 1,
            forall|j: int| 0 <= j < r@.len() ==> r@[j] is None,
        decreases len - i,
    {
        r.push(None);
        i += 1;
    }
    assert(caps_view(r@) =~= Seq::new((len + 1) as nat, |i: int| None::<nat>));
    r
}

/// A copy of a capture map.
fn copy_captures(v: &Vec<Option<usize>>) -> (r: Vec<Option<usize>>)
    ensures
        r@ == v@,
{
    let mut r: Vec<Option<usize>> = Vec::new();
    let mut i: usize = 0;
    while i < v.len()
        invariant
            i <= v@.len(),
            r@ == v@.take(i as int),
        decreases v@.len() - i,
    {
        r.push(v[i]);
        i += 1;
    }
    assert(v@.take(v@.len() as int) =~= v@);
    r
}

/// A copy of a list of positions.
fn copy_positions(v: &Vec<usize>) -> (r: Vec<usize>)
    ensures
        r@ == v@,
{
    let mut r: Vec<usize> = Vec::new();
    let mut i: usize = 0;
    while i < v.len()
        invariant
            i <= v@.len(),
            r@ == v@.take(i as int),
        decreases v@.len() - i,
    {
        r.push(v[i]);
        i += 1;
    }
    assert(v@.take(v@.len() as int) =~= v@);
    r
}

impl MatchState {
    /// The subject that this state is matched against.
    pub closed spec fn subject(&self) -> Seq<char> {
        self.matchee@.src
    }

    /// The state fits its subject: its position is within the subject or at its end, the
    /// capture map has a place for every position, and every open submatch began before the end
    /// of the subject.
    pub open spec fn inv(&self) -> bool {
        self@.fits(self@.node + 1, self.subject().len())
    }

    /// A state at the node `ws` and at the begin of the subject `s`, with nothing recorded.
    pub fn new(s: &str, ws: StateRef) -> (r: MatchState)
        ensures
            r.subject() == s@,
            r@ == seed(s@.len(), 0).moved(ws as nat, 0),
            r.inv(),
    {
        let matchee = Matchee::from_string(s);
        let len = matchee.len();
        let r = MatchState {
            node: ws,
            matchee,
            submatches: Rc::new(empty_captures(len)),
            submatches_todo: Rc::new(Vec::with_capacity(4)),
            debug: false,
        };
        assert(r@.open =~= Seq::<nat>::empty());
        r
    }

    /// A copy of this state at the node `next`, `advance` characters further on.
    pub fn fork(&self, next: StateRef, advance: usize) -> (r: MatchState)
        requires
            self@.pos + advance <= usize::MAX,
        ensures
            r.subject() == self.subject(),
            r@ == self@.moved(next as nat, (self@.pos + advance) as nat),
    {
        let mut n = self.clone();
        n.matchee.advance(advance);
        n.node = next;
        n
    }

    /// Moves this state to the node `next`, `advance` characters further on.
    pub fn update(&mut self, next: StateRef, advance: usize)
        requires
            old(self)@.pos + advance <= usize::MAX,
        ensures
            final(self).subject() == old(self).subject(),
            final(self)@ == old(self)@.moved(next as nat, (old(self)@.pos + advance) as nat),
    {
        self.matchee.advance(advance);
        self.node = next;
    }

    /// Forgets what was recorded and moves to the position `new_start`.
    pub fn reset(&mut self, new_start: usize)
        ensures
            final(self).subject() == old(self).subject(),
            final(self)@ == seed(old(self).subject().len(), new_start as nat).moved(
                old(self)@.node,
                new_start as nat,
            ),
    {
        self.submatches = Rc::new(empty_captures(self.matchee.len()));
        self.submatches_todo = Rc::new(Vec::with_capacity(4));
        self.matchee.reset(new_start);
        assert(self@.open =~= Seq::<nat>::empty());
    }

    /// This state in one line for a trace of the walk: the subject with a caret under the
    /// current position, the node, and its two successors.
    pub fn debug(&self, sg: &StateGraph) -> (r: String)
        requires
            well_formed(graph_view(sg@)),
            self@.node < sg@.len(),
        ensures
            r@ == debug_text(graph_view(sg@), self.subject(), self@),
    {
        let ghost g = graph_view(sg@);
        assert(g[self.node as int] == sg@[self.node as int]@);
        assert(crate::state::closed_state(g[self.node as int], 0, g.len()));
        let m = self.matchee.string();
        let mut full: Vec<char> = Vec::new();
        append_str(&mut full, m.as_str());
        append_str(&mut full, "   (<");
        append_decimal(&mut full, self.node);
        append_str(&mut full, "> next: 1. <");
        append_successor(&mut full, sg, sg[self.node].out);
        append_str(&mut full, " 2. <");
        append_successor(&mut full, sg, sg[self.node].out1);
        append_str(&mut full, ")\n");
        assert(full@ =~= debug_text(g, self.subject(), self@));
        string_of(full.as_slice())
    }

    /// Notes that a submatch starts at the current position, unless that is the end of the
    /// subject.
    pub fn start_submatch(&mut self)
        ensures
            final(self).subject() == old(self).subject(),
            final(self)@ == old(self)@.marked(Some(Submatch::Start), old(self).subject().len()),
    {
        if self.matchee.pos() < self.matchee.len() {
            let mut new_submatches = copy_positions(&self.submatches_todo);
            new_submatches.push(self.matchee.pos());
            self.submatches_todo = Rc::new(new_submatches);
            assert(self@.open =~= old(self)@.open.push(old(self)@.pos));
        }
    }

    /// Records that the innermost open submatch ends at the current position, if one is open.
    /// The capture map must have a place for the position at which that submatch began.
    pub fn stop_submatch(&mut self)
        requires
            old(self)@.open.len() > 0 ==> old(self)@.open.last() < old(self)@.captures.len(),
        ensures
            final(self).subject() == old(self).subject(),
            final(self)@ == old(self)@.marked(Some(Submatch::End), old(self).subject().len()),
    {
        if self.submatches_todo.len() > 0 {
            let mut new_submatches = copy_positions(&self.submatches_todo);
            let begin = new_submatches.pop().unwrap();
            self.submatches_todo = Rc::new(new_submatches);
            let mut recorded = copy_captures(&self.submatches);
            assert(begin == old(self)@.open.last());
            recorded[begin] = Some(self.matchee.pos());
            self.submatches = Rc::new(recorded);
            assert(self@.open =~= old(self)@.open.drop_last());
            assert(self@.captures =~= old(self)@.captures.update(
                old(self)@.open.last() as int,
                Some(old(self)@.pos),
            ));
        }
    }
}

/// The threads that a list of states stands for.
pub open spec fn threads(states: Seq<MatchState>) -> Seq<Thread> {
    Seq::new(states.len(), |i: int| states[i]@)
}

/// All states are matched against `subject`.
pub open spec fn same_subject(states: Seq<MatchState>, subject: Seq<char>) -> bool {
    forall|i: int| 0 <= i < states.len() ==> (#[trigger] states[i]).subject() == subject
}

/// What a pass has found so far, and what it has scheduled for the next round.
pub struct Progress {
    /// For each position and each node, whether a state was ever scheduled there.
    seen: Vec<Vec<bool>>,
    /// The states of the next round.
    next: Vec<MatchState>,
    /// Whether a match was found.
    ismatch: bool,
    /// The submatches of the best match.
    matches: Vec<Option<usize>>,
    /// The position at which the best match ends.
    longestmatch: usize,
    /// The furthest any state has advanced into the string.
    longest_partial_match: usize,
    /// The positions and nodes that were noted in the table, so that the table can be cleared
    /// for the next pass without going through all of it.
    noted: Vec<(usize, usize)>,
}

/// The list `noted` names every place that is noted in the table, and only places of the
/// table.
pub open spec fn covers(noted: Seq<(usize, usize)>, from: int, seen: Seq<Seq<bool>>) -> bool {
    &&& forall|i: int|
        0 <= i < noted.len() ==> (#[trigger] noted[i]).0 < seen.len() && noted[i].1
            < seen[noted[i].0 as int].len()
    &&& forall|p: int, n: int|
        0 <= p < seen.len() && 0 <= n < seen[p].len() && #[trigger] seen[p][n] ==> exists|i: int|
            from <= i < noted.len() && (#[trigger] noted[i]).0 == p && noted[i].1 == n
}

/// The table in which nothing is noted.
pub open spec fn blank_table(states: nat, len: nat) -> Seq<Seq<bool>> {
    Seq::new(len + 1, |p: int| Seq::new(states, |n: int| false))
}

/// The table as a sequence of rows.
pub open spec fn table_view(seen: Seq<Vec<bool>>) -> Seq<Seq<bool>> {
    Seq::new(seen.len(), |p: int| seen[p]@)
}

impl View for Progress {
    type V = Pass;

    closed spec fn view(&self) -> Pass {
        Pass {
            seen: table_view(self.seen@),
            next: threads(self.next@),
            matched: self.ismatch,
            longest: self.longestmatch as nat,
            best: caps_view(self.matches@),
            furthest: self.longest_partial_match as nat,
        }
    }
}

impl Progress {
    /// The states scheduled for the next round.
    pub closed spec fn states(&self) -> Seq<MatchState> {
        self.next@
    }

    /// Every place that is noted in the table is on the list of the places to clear.
    pub closed spec fn tidy(&self) -> bool {
        covers(self.noted@, 0, table_view(self.seen@))
    }

    /// Schedules the state for the next round, unless a state was scheduled at its node and
    /// position before.
    fn schedule(&mut self, st: MatchState, Ghost(g): Ghost<Seq<StateView>>)
        requires
            pass_ok(g, st.subject(), old(self)@),
            same_subject(old(self).states(), st.subject()),
            st@.fits(g.len(), st.subject().len()),
            old(self).tidy(),
        ensures
            final(self)@ == scheduled(old(self)@, Some(st@.node), st@.pos, st@),
            same_subject(final(self).states(), st.subject()),
            final(self).tidy(),
    {
        let (pos, node) = state_key(&st);
        assert(table_view(self.seen@)[pos as int] == self.seen@[pos as int]@);
        if !self.seen[pos][node] {
            let ghost before = table_view(self.seen@);
            let ghost queue = threads(self.next@);
            let ghost list = self.noted@;
            self.seen[pos][node] = true;
            self.next.push(st);
            self.noted.push((pos, node));
            proof {
                let now = table_view(self.seen@);
                assert forall|p: int, n: int|
                    0 <= p < now.len() && 0 <= n < now[p].len() && #[trigger] now[p][n] implies exists|
                    i: int,
                |
                    0 <= i < self.noted@.len() && (#[trigger] self.noted@[i]).0 == p
                        && self.noted@[i].1 == n by {
                    assert(now[p] == self.seen@[p]@);
                    assert(before[p] == old(self).seen@[p]@);
                    if p == pos && n == node {
                        assert(self.noted@[list.len() as int] == (pos, node));
                    } else {
                        assert(before[p][n]);
                        let i = choose|i: int|
                            0 <= i < list.len() && (#[trigger] list[i]).0 == p && list[i].1 == n;
                        assert(self.noted@[i] == list[i]);
                    }
                }
                assert forall|i: int| 0 <= i < self.noted@.len() implies (
                #[trigger] self.noted@[i]).0 < now.len() && self.noted@[i].1
                    < now[self.noted@[i].0 as int].len() by {
                    if i < list.len() {
                        assert(self.noted@[i] == list[i]);
                        assert(list[i].0 < before.len());
                        assert(now[list[i].0 as int].len() == before[list[i].0 as int].len());
                    } else {
                        assert(now[pos as int] == self.seen@[pos as int]@);
                    }
                }
                assert(table_view(self.seen@) =~= before.update(
                    pos as int,
                    before[pos as int].update(node as int, true),
                ));
                assert(threads(self.next@) =~= queue.push(st@));
                assert(st@.moved(st@.node, st@.pos) == st@);
            }
        }
    }
}

/// Lets one state take its step.
fn step(sg: &StateGraph, matchst: MatchState, progress: &mut Progress)
    requires
        pass_ok(graph_view(sg@), matchst.subject(), old(progress)@),
        same_subject(old(progress).states(), matchst.subject()),
        matchst@.fits(sg@.len(), matchst.subject().len()),
        old(progress).tidy(),
    ensures
        final(progress)@ == stepped(graph_view(sg@), matchst.subject(), old(progress)@, matchst@),
        same_subject(final(progress).states(), matchst.subject()),
        final(progress).tidy(),
{
    let ghost g = graph_view(sg@);
    let ghost subject = matchst.subject();
    let ghost before = matchst@;
    let mut matchst = matchst;
    let state = &sg[matchst.node];
    assert(g[before.node as int] == state@);
    assert(crate::state::closed_state(g[before.node as int], 0, g.len()));
    let (next1, next2) = state.next_states();
    proof {
        lemma_marked_fits(before, state@.sub, g.len(), subject.len());
    }
    // Check if this node is a submatch start or end. If it is, the list of pending submatches
    // is cloned and the current position pushed (Start) or the most recent submatch start
    // popped and stored in the overall submatch list (End).
    match state.sub {
        Some(Submatch::Start) => matchst.start_submatch(),
        Some(Submatch::End) => matchst.stop_submatch(),
        None => {},
    }
    assert(matchst@ == before.marked(state@.sub, subject.len()));
    let pos = matchst.matchee.pos();
    // Found match (intentionally down here, after finalizing submatch processing). Only update
    // match if this match is longer than the previous one.
    if next1.is_none() && next2.is_none() {
        if pos > progress.longestmatch || progress.longestmatch == 0 {
            progress.ismatch = true;
            progress.matches = copy_captures(&matchst.submatches);
            progress.longestmatch = pos;
        }
        return ;
    }
    // longest_partial_match contains the furthest any substate has advanced into the string.
    if pos > progress.longest_partial_match {
        progress.longest_partial_match = pos;
    }
    let mut advance_by: usize = 0;
    // Check if the current state matches.
    if let Some((matched, howmany)) = state.matches(&matchst.matchee) {
        // Current state didn't match, throw away.
        if !matched {
            return ;
        }
        advance_by = howmany;
    }
    // A state that would leave the subject is thrown away.
    if advance_by > matchst.matchee.len() - pos {
        return ;
    }
    let ghost acc = progress@;
    let ghost marked = matchst@;
    let ghost target = (pos + advance_by) as nat;
    // We only clone the current state if there's a fork in the graph. Otherwise we reuse the
    // old state.
    if next1.is_some() && next2.is_some() {
        let nextst = matchst.fork(next1.unwrap(), advance_by);
        proof {
            lemma_moved_fits(marked, next1.unwrap() as nat, target, g.len(), subject.len());
            lemma_scheduled_ok(g, subject, acc, Some(next1.unwrap() as nat), target, marked);
        }
        progress.schedule(nextst, Ghost(g));
        matchst.update(next2.unwrap(), advance_by);
        proof {
            lemma_moved_fits(marked, next2.unwrap() as nat, target, g.len(), subject.len());
        }
        progress.schedule(matchst, Ghost(g));
    } else if let Some(n1) = next1 {
        // Reuse current state if only one successor (common case).
        matchst.update(n1, advance_by);
        proof {
            lemma_moved_fits(marked, n1 as nat, target, g.len(), subject.len());
        }
        progress.schedule(matchst, Ghost(g));
    } else if let Some(n2) = next2 {
        matchst.update(n2, advance_by);
        proof {
            lemma_moved_fits(marked, n2 as nat, target, g.len(), subject.len());
        }
        progress.schedule(matchst, Ghost(g));
    }
}

proof fn lemma_moved_fits(t: Thread, node: nat, pos: nat, states: nat, len: nat)
    requires
        t.fits(states, len),
        node < states,
        pos <= len,
    ensures
        t.moved(node, pos).fits(states, len),
        t.moved(node, pos).moved(node, pos) == t.moved(node, pos),
{
    let m = t.moved(node, pos);
    assert forall|i: int| 0 <= i < m.open.len() implies (#[trigger] m.open[i]) < len by {
        assert(t.open[i] < len);
    }
}

/// A table with a row for each position up to `len` and in it an entry for each of `states`
/// nodes, in which nothing is noted.
fn empty_table(states: usize, len: usize) -> (r: Vec<Vec<bool>>)
    ensures
        r@.len() == len + 1,
        forall|q: int| 0 <= q < r@.len() ==> (#[trigger] r@[q])@.len() == states,
        table_view(r@) == blank_table(states as nat, len as nat),
{
    let mut r: Vec<Vec<bool>> = Vec::new();
    let mut p: usize = 0;
    loop
        invariant_except_break
            r@.len() == p,
        invariant
            p <= len,
            forall|q: int| 0 <= q < r@.len() ==> (#[trigger] r@[q])@ == Seq::new(
                states as nat,
                |n: int| false,
            ),
        ensures
            r@.len() == len + 1,
        decreases len - p,
    {
        let mut row: Vec<bool> = Vec::new();
        let mut n: usize = 0;
        while n < states
            invariant
                n <= states,
                row@.len() == n,
                forall|k: int| 0 <= k < row@.len() ==> !row@[k],
            decreases states - n,
        {
            row.push(false);
            n += 1;
        }
        assert(row@ =~= Seq::new(states as nat, |n: int| false));
        r.push(row);
        if p == len {
            break ;
        }
        p += 1;
    }
    assert(table_view(r@) =~= blank_table(states as nat, len as nat));
    r
}

/// start_match takes an initialized MatchState and starts matching. It returns true if the
/// input string matches, otherwise false; the index in the input string to which the match was
/// successful (in case a match fails, but matches some characters at the beginning); and a
/// vector of submatches; if the entry at index I contains Some(J), then that means that there
/// is a submatch starting at I extending to (J-1).
pub fn start_match(sg: &StateGraph, m: MatchState) -> (r: (bool, usize, Vec<Option<usize>>))
    requires
        well_formed(graph_view(sg@)),
        m@.fits(sg@.len(), m.subject().len()),
    ensures
        r.0 == pass_from(graph_view(sg@), m.subject(), m@).matched,
        r.1 == pass_from(graph_view(sg@), m.subject(), m@).furthest,
        caps_view(r.2@) == pass_from(graph_view(sg@), m.subject(), m@).best,
{
    let table = empty_table(sg.len(), m.matchee.len());
    let (found, _) = run_pass(sg, m, table);
    found
}

/// One pass with a table that is handed in and handed back. The table notes at which position
/// and node a state was scheduled; nothing is noted in it before the pass, and nothing after
/// it, so that the next pass can use it again.
pub fn run_pass(sg: &StateGraph, m: MatchState, table: Vec<Vec<bool>>) -> (r: (
    (bool, usize, Vec<Option<usize>>),
    Vec<Vec<bool>>,
))
    requires
        well_formed(graph_view(sg@)),
        m@.fits(sg@.len(), m.subject().len()),
        table_view(table@) == blank_table(sg@.len() as nat, m.subject().len()),
    ensures
        r.0.0 == pass_from(graph_view(sg@), m.subject(), m@).matched,
        r.0.1 == pass_from(graph_view(sg@), m.subject(), m@).furthest,
        caps_view(r.0.2@) == pass_from(graph_view(sg@), m.subject(), m@).best,
        table_view(r.1@) == blank_table(sg@.len() as nat, m.subject().len()),
{
    let ghost g = graph_view(sg@);
    let ghost subject = m.subject();
    let ghost first = m@;
    // The table keyed by (matchee position, node index) avoids duplication of states. With
    // duplicates, certain pathological regular expressions have exponential complexity (as a
    // function of input size), and a graph with a loop that consumes nothing is walked forever.
    let mut seen = table;
    let ghost blank = table_view(seen@);
    let (pos, node) = state_key(&m);
    proof {
        assert(blank.len() == seen@.len());
        assert(blank.len() == subject.len() + 1);
        assert(blank[pos as int] == seen@[pos as int]@);
        assert(blank[pos as int] == blank_table(g.len(), subject.len())[pos as int]);
    }
    seen[pos][node] = true;
    let mut noted: Vec<(usize, usize)> = Vec::new();
    noted.push((pos, node));
    let mut progress = Progress {
        seen,
        next: Vec::new(),
        ismatch: false,
        matches: Vec::new(),
        longestmatch: 0,
        longest_partial_match: 0,
        noted,
    };
    let mut states: Vec<MatchState> = Vec::new();
    states.push(m);
    proof {
        assert(progress@.seen =~= first_table(g.len(), subject.len(), first.pos, first.node)) by {
            assert forall|p: int| 0 <= p < progress@.seen.len() implies progress@.seen[p]
                =~= first_table(g.len(), subject.len(), first.pos, first.node)[p] by {
                assert(blank[p] == blank_table(g.len(), subject.len())[p]);
                assert(progress@.seen[p] == progress.seen@[p]@);
            }
        }
        assert(progress@.next =~= Seq::<Thread>::empty());
        assert(progress@.best =~= Seq::<Option<nat>>::empty());
        assert(progress@ == begun(g, subject, first));
        assert(threads(states@) =~= seq![first]);
        assert(progress.tidy()) by {
            let now = table_view(progress.seen@);
            assert forall|p: int, n: int|
                0 <= p < now.len() && 0 <= n < now[p].len() && #[trigger] now[p][n] implies exists|
                i: int,
            |
                0 <= i < progress.noted@.len() && (#[trigger] progress.noted@[i]).0 == p
                    && progress.noted@[i].1 == n by {
                assert(progress.noted@[0] == (pos, node));
            }
        }
    }
    loop
        invariant
            g == graph_view(sg@),
            well_formed(g),
            table_fits(progress@.seen, g.len(), subject.len()),
            progress@.next.len() == 0,
            progress.states().len() == 0,
            progress.tidy(),
            same_subject(states@, subject),
            forall|i: int|
                0 <= i < states@.len() ==> (#[trigger] threads(states@)[i]).fits(
                    g.len(),
                    subject.len(),
                ),
            pass_from(g, subject, first) == walked(g, subject, progress@, threads(states@)),
        ensures
            pass_from(g, subject, first) == progress@,
        decreases unseen(progress@.seen), states@.len(),
    {
        if states.is_empty() {
            assert(threads(states@) =~= Seq::<Thread>::empty());
            break ;
        }
        let ghost acc = progress@;
        let ghost current = threads(states@);
        let ghost all = states@;
        proof {
            assert(acc.next =~= Seq::<Thread>::empty());
            assert(cleared(acc) == acc);
            lemma_round(g, subject, acc, current, current.len());
        }
        // Iterate over all current states, see which match, and schedule the successors of
        // matching states for the next round.
        for matchst in it: states
            invariant
                it.seq() == all,
                current == threads(all),
                g == graph_view(sg@),
                same_subject(all, subject),
                forall|i: int|
                    0 <= i < current.len() ==> (#[trigger] current[i]).fits(g.len(), subject.len()),
                pass_ok(g, subject, acc),
                pass_ok(g, subject, progress@),
                same_subject(progress.states(), subject),
                progress.tidy(),
                progress@ == round(g, subject, acc, current, it.index() as nat),
        {
            proof {
                assert(matchst@ == current[it.index() as int]);
                assert(all[it.index() as int].subject() == subject);
                lemma_round(g, subject, acc, current, (it.index() + 1) as nat);
            }
            step(sg, matchst, &mut progress);
        }
        // The states of the next round become the current ones.
        let Progress { seen, next, ismatch, matches, longestmatch, longest_partial_match, noted } =
            progress;
        states = next;
        progress =
        Progress {
            seen,
            next: Vec::new(),
            ismatch,
            matches,
            longestmatch,
            longest_partial_match,
            noted,
        };
        proof {
            let after = round(g, subject, acc, current, current.len());
            assert(threads(states@) == after.next);
            assert(progress@.next =~= Seq::<Thread>::empty());
            assert(progress@ == cleared(after));
            lemma_walked_cleared(g, subject, after, after.next);
        }
    }
    let Progress { seen, next: _, ismatch, matches, longestmatch: _, longest_partial_match, noted } =
        progress;
    let table = clear_table(seen, &noted, Ghost(g.len()), Ghost(subject.len()));
    ((ismatch, longest_partial_match, matches), table)
}

/// Clears the places of the table that the list names.
fn clear_table(
    seen: Vec<Vec<bool>>,
    noted: &Vec<(usize, usize)>,
    Ghost(states): Ghost<nat>,
    Ghost(len): Ghost<nat>,
) -> (table: Vec<Vec<bool>>)
    requires
        table_fits(table_view(seen@), states, len),
        covers(noted@, 0, table_view(seen@)),
    ensures
        table_view(table@) == blank_table(states, len),
{
    let mut seen = seen;
    let mut i: usize = 0;
    while i < noted.len()
        invariant
            i <= noted@.len(),
            table_fits(table_view(seen@), states, len),
            covers(noted@, i as int, table_view(seen@)),
        decreases noted@.len() - i,
    {
        let (p, n) = noted[i];
        let ghost before = table_view(seen@);
        assert(before[p as int] == seen@[p as int]@);
        seen[p][n] = false;
        proof {
            let now = table_view(seen@);
            assert(now =~= before.update(p as int, before[p as int].update(n as int, false)));
            assert forall|q: int| 0 <= q <= len implies (#[trigger] now[q]).len() == states by {
                assert(before[q].len() == states);
            }
            assert forall|q: int, k: int|
                0 <= q < now.len() && 0 <= k < now[q].len() && #[trigger] now[q][k] implies exists|
                j: int,
            |
                i + 1 <= j < noted@.len() && (#[trigger] noted@[j]).0 == q && noted@[j].1 == k by {
                assert(before[q][k]);
                let j = choose|j: int|
                    i <= j < noted@.len() && (#[trigger] noted@[j]).0 == q && noted@[j].1 == k;
                if j == i {
                    assert(q == p && k == n);
                }
            }
            assert forall|j: int| 0 <= j < noted@.len() implies (#[trigger] noted@[j]).0
                < now.len() && noted@[j].1 < now[noted@[j].0 as int].len() by {
                assert(noted@[j].0 < before.len());
                assert(before[noted@[j].0 as int].len() == states);
            }
        }
        i += 1;
    }
    proof {
        let now = table_view(seen@);
        assert forall|q: int| 0 <= q < now.len() implies #[trigger] now[q] =~= blank_table(
            states,
            len,
        )[q] by {
            assert(now[q].len() == states);
            assert forall|k: int| 0 <= k < now[q].len() implies !now[q][k] by {
                if now[q][k] {
                    let j = choose|j: int|
                        i <= j < noted@.len() && (#[trigger] noted@[j]).0 == q && noted@[j].1
                            == k;
                }
            }
        }
        assert(now =~= blank_table(states, len));
    }
    seen
}

/// The walk does not look at what was scheduled before its first round.
proof fn lemma_walked_cleared(
    g: Seq<StateView>,
    subject: Seq<char>,
    acc: Pass,
    current: Seq<Thread>,
)
    requires
        walk_ok(g, subject, acc, current),
        current.len() == 0 ==> acc.next.len() == 0,
    ensures
        walked(g, subject, acc, current) == walked(g, subject, cleared(acc), current),
{
    if current.len() == 0 {
        assert(acc.next =~= Seq::<Thread>::empty());
        assert(cleared(acc) == acc);
    } else {
        assert(cleared(cleared(acc)) == cleared(acc));
    }
}

/// The submatches of a capture map, in the order of their starts.
fn flatten(matchpos: &Vec<Option<usize>>) -> (matches: Vec<(usize, usize)>)
    ensures
        pairs_view(matches@) == spans(caps_view(matchpos@)),
{
    let ghost all = caps_view(matchpos@);
    let mut matches: Vec<(usize, usize)> = Vec::new();
    let mut i: usize = 0;
    assert(pairs_view(matches@) =~= spans(all.take(0)));
    while i < matchpos.len()
        invariant
            i <= matchpos@.len(),
            all == caps_view(matchpos@),
            pairs_view(matches@) == spans(all.take(i as int)),
        decreases matchpos@.len() - i,
    {
        let ghost before = pairs_view(matches@);
        proof {
            assert(all.take(i + 1).drop_last() =~= all.take(i as int));
            assert(all.take(i + 1).last() == all[i as int]);
        }
        if let Some(end) = matchpos[i] {
            matches.push((i, end));
            assert(pairs_view(matches@) =~= before.push((i as nat, end as nat)));
        }
        i += 1;
    }
    assert(all.take(matchpos@.len() as int) =~= all);
    matches
}

/// do_match starts the matching process. It tries to match the supplied compiled regex against
/// the supplied string. If it fails, it skips ahead and tries later in the string (i.e., if the
/// regex isn't anchored, it will do a full-text match).
///
/// The boolean component is true if the match succeeded. The Vec contains tuples of (start,
/// one-past-end) for each submatch, starting with the implicit whole match.
pub fn do_match(sg: &StateGraph, s: &str) -> (r: (bool, Vec<(usize, usize)>))
    requires
        well_formed(graph_view(sg@)),
    ensures
        r.0 == searched(graph_view(sg@), s@, 0).0,
        pairs_view(r.1@) == searched(graph_view(sg@), s@, 0).1,
{
    let ghost g = graph_view(sg@);
    let mut ms = MatchState::new(s, 0);
    let len = ms.matchee.len();
    // One table serves all passes: each pass hands it back with nothing noted in it.
    let mut table = empty_table(sg.len(), len);
    let mut i: usize = 0;
    loop
        invariant
            i <= len,
            len == s@.len(),
            table_view(table@) == blank_table(sg@.len() as nat, s@.len()),
            g == graph_view(sg@),
            well_formed(g),
            ms.subject() == s@,
            ms@.node == 0,
            searched(g, s@, 0) == searched(g, s@, i as nat),
        decreases len - i,
    {
        ms.reset(i);
        proof {
            assert(ms@ == seed(s@.len(), i as nat));
        }
        let (m, cleared) = run_pass(sg, ms.clone(), table);
        table = cleared;
        if m.0 {
            return (true, flatten(&m.2));
        }
        // If the match fails, we skip as many characters as were matched at first.
        let reached = if m.1 > i {
            m.1
        } else {
            i
        };
        if reached >= len {
            let none: Vec<(usize, usize)> = Vec::new();
            assert(pairs_view(none@) =~= Seq::<(nat, nat)>::empty());
            return (false, none);
        }
        i = reached + 1;
    }
}

/// Create a key from a matchstate, in order to deduplicate states.
pub fn state_key(m: &MatchState) -> (key: (usize, StateRef))
    ensures
        key.0 == m@.pos,
        key.1 == m@.node,
{
    (m.matchee.pos(), m.node)
}

} // verus!
