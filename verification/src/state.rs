//! The state graph that the simulator walks: a flat vector of states that refer to each other
//! by index. It is built from a pattern by the compiler.

use crate::matcher::{Matchee, Matcher, MatcherKind, WrappedMatcher};
use crate::text::{append_decimal, append_str, decimal, string_of};
use std::collections::HashSet;
use std::rc::Rc;
use vstd::prelude::*;

verus! {

/// StateGraph is the graph of states that the interpreter traverses while matching a regular
/// expression. It is represented as flat vector. The first element is the State node to start
/// the evaluation with.
pub type StateGraph = Vec<State>;

/// StateRef is a reference to a state in a StateGraph.
pub type StateRef = usize;

/// State is a single state that the evaluation can be in. It contains several output states as
/// well as a matcher.
#[derive(Debug, Clone)]
pub struct State {
    // Possible following state(s).
    pub out: Option<StateRef>,
    pub out1: Option<StateRef>,
    // If matcher is none, this is an "empty" state.
    pub matcher: Option<Rc<WrappedMatcher>>,
    // Tells the matching logic to record the start or end of a submatch.
    pub sub: Option<Submatch>,
}

/// A `State` can be marked to start or end a submatch (usually denoted by parentheses in a
/// regular expression).
#[derive(Clone, Copy, Debug, PartialEq, Eq)]
pub enum Submatch {
    Start,
    End,
}

/// The mathematical value of a `State`: its successors, what its matcher looks for, and its
/// submatch mark.
pub struct StateView {
    pub out: Option<nat>,
    pub out1: Option<nat>,
    pub matcher: Option<MatcherKind>,
    pub sub: Option<Submatch>,
}

/// An index as a number.
pub open spec fn index_view(i: Option<StateRef>) -> Option<nat> {
    match i {
        Some(i) => Some(i as nat),
        None => None,
    }
}

impl View for State {
    type V = StateView;

    open spec fn view(&self) -> StateView {
        StateView {
            out: index_view(self.out),
            out1: index_view(self.out1),
            matcher: match self.matcher {
                Some(m) => Some(m.kind()),
                None => None,
            },
            sub: self.sub,
        }
    }
}

/// The values of the states of a graph.
pub open spec fn graph_view(g: Seq<State>) -> Seq<StateView> {
    Seq::new(g.len(), |i: int| g[i]@)
}

impl StateView {
    /// The state with `next` as one more successor: the first if it has none, else the second.
    pub open spec fn patched(self, next: nat) -> StateView {
        if self.out is None {
            StateView { out: Some(next), ..self }
        } else {
            StateView { out1: Some(next), ..self }
        }
    }

    /// A state without successors ends a match.
    pub open spec fn is_last(self) -> bool {
        self.out is None && self.out1 is None
    }

    /// The state in one line: `m:`, the matcher or `_`, then ` sub:` and the submatch mark.
    pub open spec fn label(self) -> Seq<char> {
        "m:"@ + (match self.matcher {
            Some(kind) => kind.label(),
            None => "_"@,
        }) + " sub:"@ + (match self.sub {
            Some(Submatch::Start) => "Start"@,
            Some(Submatch::End) => "End"@,
            None => ""@,
        })
    }
}

/// The successors of the state lie in the graph, at or after the index `lo` and before `hi`.
pub open spec fn closed_state(s: StateView, lo: nat, hi: nat) -> bool {
    &&& s.out is Some ==> lo <= s.out->0 < hi
    &&& s.out1 is Some ==> lo <= s.out1->0 < hi
}

/// A graph that can be walked: it has a first state, and every successor of a state is a state
/// of the graph.
pub open spec fn well_formed(g: Seq<StateView>) -> bool {
    &&& g.len() > 0
    &&& forall|k: int| 0 <= k < g.len() ==> closed_state(#[trigger] g[k], 0, g.len())
}

impl Default for State {
    fn default() -> (r: State)
        ensures
            r@ == (StateView { out: None, out1: None, matcher: None, sub: None }),
    {
        State { out: None, out1: None, matcher: None, sub: None }
    }
}

impl State {
    /// Adds `next` as a successor. One of the two places for a successor must be free.
    pub fn patch(&mut self, next: StateRef)
        requires
            old(self).out is None || old(self).out1 is None,
        ensures
            final(self)@ == old(self)@.patched(next as nat),
    {
        if self.out.is_none() {
            self.out = Some(next);
        } else {
            self.out1 = Some(next);
        }
    }

    pub fn is_last(&self) -> (r: bool)
        ensures
            r == self@.is_last(),
    {
        self.out.is_none() && self.out1.is_none()
    }

    pub fn has_matcher(&self) -> (r: bool)
        ensures
            r == (self@.matcher is Some),
    {
        self.matcher.is_some()
    }

    /// Checks the matchee against the matcher. Returns None if the node doesn't contain a
    /// matcher.
    pub fn matches(&self, me: &Matchee) -> (r: Option<(bool, usize)>)
        ensures
            match self@.matcher {
                Some(kind) => r == Some((kind.accepts(me@.src, me@.ix), kind.width() as usize))
                    && kind.width() <= usize::MAX,
                None => r is None,
            },
    {
        match &self.matcher {
            Some(m) => Some(m.matches(me)),
            None => None,
        }
    }

    /// Returns the following states, if present. Returns (None, None) if it's the final node.
    pub fn next_states(&self) -> (r: (Option<StateRef>, Option<StateRef>))
        ensures
            r == (self.out, self.out1),
    {
        (self.out, self.out1)
    }

    pub fn to_string(&self) -> (r: String)
        ensures
            r@ == self@.label(),
    {
        let mut out: Vec<char> = Vec::new();
        append_str(&mut out, "m:");
        match &self.matcher {
            Some(m) => {
                let text = m.describe();
                append_str(&mut out, text.as_str());
            },
            None => {
                append_str(&mut out, "_");
            },
        }
        append_str(&mut out, " sub:");
        match &self.sub {
            Some(Submatch::Start) => {
                append_str(&mut out, "Start");
            },
            Some(Submatch::End) => {
                append_str(&mut out, "End");
            },
            None => {
                append_str(&mut out, "");
            },
        }
        string_of(out.as_slice())
    }
}

/// How many entries of a row are false.
pub open spec fn count_false(row: Seq<bool>) -> nat
    decreases row.len(),
{
    if row.len() == 0 {
        0
    } else {
        count_false(row.drop_last()) + if row.last() {
            0nat
        } else {
            1nat
        }
    }
}

/// Noting one more entry leaves one fewer that is false.
pub proof fn lemma_count_false_update(row: Seq<bool>, n: int)
    requires
        0 <= n < row.len(),
        !row[n],
    ensures
        count_false(row.update(n, true)) + 1 == count_false(row),
    decreases row.len(),
{
    let after = row.update(n, true);
    if n == row.len() - 1 {
        assert(after.drop_last() =~= row.drop_last());
    } else {
        lemma_count_false_update(row.drop_last(), n);
        assert(after.drop_last() =~= row.drop_last().update(n, true));
    }
}

/// The line of a rendered graph for the edge from the state `from` to the state `to`: both
/// states between double quotes, each as its index and its label, with an arrow between them.
pub open spec fn edge_text(g: Seq<StateView>, from: nat, to: nat) -> Seq<char> {
    "\""@ + decimal(from) + " "@ + g[from as int].label() + "\" -> \""@ + decimal(to) + " "@
        + g[to as int].label() + "\";\n"@
}

/// The line for the edge from `current` to `next`, if there is such an edge.
pub open spec fn edge_line(g: Seq<StateView>, current: nat, next: Option<nat>) -> Seq<char> {
    match next {
        Some(to) => edge_text(g, current, to),
        None => Seq::empty(),
    }
}

/// The states still to visit after the edge to `next` was written: `next` is added unless it
/// was visited.
pub open spec fn edge_waiting(visited: Seq<bool>, waiting: Seq<nat>, next: Option<nat>) -> Seq<nat> {
    match next {
        Some(to) => if visited[to as int] {
            waiting
        } else {
            waiting.push(to)
        },
        None => waiting,
    }
}

/// What is true of a rendering before a state is taken from `waiting`.
pub open spec fn dot_ok(g: Seq<StateView>, visited: Seq<bool>, waiting: Seq<nat>) -> bool {
    &&& well_formed(g)
    &&& visited.len() == g.len()
    &&& forall|i: int| 0 <= i < waiting.len() ==> (#[trigger] waiting[i]) < g.len()
}

/// The lines of the edges that are found from the states `waiting`, the last of which is looked
/// at first: a state that was visited is passed over; of any other state the edges to its
/// successors are written, the first successor first, and the successors are looked at next,
/// the second before the first.
pub open spec fn dot_walk(g: Seq<StateView>, visited: Seq<bool>, waiting: Seq<nat>) -> Seq<char>
    decreases count_false(visited), waiting.len(),
    when dot_ok(g, visited, waiting)
{
    if waiting.len() == 0 {
        Seq::empty()
    } else {
        let current = waiting.last();
        let rest = waiting.drop_last();
        if visited[current as int] {
            dot_walk(g, visited, rest)
        } else {
            let marked = visited.update(current as int, true);
            proof {
                lemma_count_false_update(visited, current as int);
            }
            let first = edge_waiting(marked, rest, g[current as int].out);
            let second = edge_waiting(marked, first, g[current as int].out1);
            edge_line(g, current, g[current as int].out) + edge_line(
                g,
                current,
                g[current as int].out1,
            ) + dot_walk(g, marked, second)
        }
    }
}

/// The rendering of a graph: the lines of all edges that can be reached from its first state.
pub open spec fn dot_text(g: Seq<StateView>) -> Seq<char> {
    dot_walk(g, Seq::new(g.len(), |i: int| false), seq![0nat])
}

/// Indices as numbers.
pub open spec fn refs_view(v: Seq<StateRef>) -> Seq<nat> {
    Seq::new(v.len(), |i: int| v[i] as nat)
}

/// For each of the first `n` states, whether it is in the set.
pub open spec fn marks_of(visited: Set<StateRef>, n: nat) -> Seq<bool> {
    Seq::new(n, |k: int| visited.contains(k as usize))
}

/// Whether the state was visited.
fn was_visited(visited: &HashSet<StateRef>, k: StateRef) -> (r: bool)
    ensures
        r == visited@.contains(k),
{
    broadcast use vstd::std_specs::hash::group_hash_axioms;

    visited.contains(&k)
}

/// Notes that the state was visited.
fn visit(visited: &mut HashSet<StateRef>, k: StateRef)
    ensures
        final(visited)@ == old(visited)@.insert(k),
{
    broadcast use vstd::std_specs::hash::group_hash_axioms;

    visited.insert(k);
}

/// Writes the line for the edge from `current` to `next`, if there is one, and adds `next` to
/// the states to visit unless it was visited.
fn dot_edge(
    stateg: &StateGraph,
    result: &mut Vec<char>,
    visited: &HashSet<StateRef>,
    waiting: &mut Vec<StateRef>,
    current: StateRef,
    next: Option<StateRef>,
)
    requires
        well_formed(graph_view(stateg@)),
        current < stateg@.len(),
        next is Some ==> next->0 < stateg@.len(),
    ensures
        final(result)@ == old(result)@ + edge_line(
            graph_view(stateg@),
            current as nat,
            index_view(next),
        ),
        refs_view(final(waiting)@) == edge_waiting(
            marks_of(visited@, stateg@.len()),
            refs_view(old(waiting)@),
            index_view(next),
        ),
{
    if let Some(nextid) = next {
        let ghost before = result@;
        let ghost g = graph_view(stateg@);
        let from = stateg[current].to_string();
        let to = stateg[nextid].to_string();
        append_str(result, "\"");
        append_decimal(result, current);
        append_str(result, " ");
        append_str(result, from.as_str());
        append_str(result, "\" -> \"");
        append_decimal(result, nextid);
        append_str(result, " ");
        append_str(result, to.as_str());
        append_str(result, "\";\n");
        proof {
            assert(g[current as int] == stateg@[current as int]@);
            assert(g[nextid as int] == stateg@[nextid as int]@);
            assert(result@ =~= before + edge_text(g, current as nat, nextid as nat));
        }
        if !was_visited(visited, nextid) {
            let ghost stack = refs_view(waiting@);
            waiting.push(nextid);
            assert(refs_view(waiting@) =~= stack.push(nextid as nat));
        }
    } else {
        assert(result@ =~= old(result)@ + Seq::<char>::empty());
    }
}

/// dot converts a graph into a graphviz dot representation.
pub fn dot(stateg: &StateGraph) -> (r: String)
    requires
        well_formed(graph_view(stateg@)),
    ensures
        r@ == dot_text(graph_view(stateg@)),
{
    let ghost g = graph_view(stateg@);
    let states = stateg.len();
    let mut result: Vec<char> = Vec::new();
    let mut visited: HashSet<StateRef> = HashSet::new();
    let mut waiting: Vec<StateRef> = Vec::new();
    waiting.push(0);
    proof {
        assert(marks_of(visited@, g.len()) =~= Seq::new(g.len(), |i: int| false));
        assert(refs_view(waiting@) =~= seq![0nat]);
        assert(result@ + dot_walk(g, marks_of(visited@, g.len()), refs_view(waiting@)) =~= dot_text(
            g,
        ));
    }
    loop
        invariant
            g == graph_view(stateg@),
            states == stateg@.len(),
            dot_ok(g, marks_of(visited@, g.len()), refs_view(waiting@)),
            dot_text(g) == result@ + dot_walk(
                g,
                marks_of(visited@, g.len()),
                refs_view(waiting@),
            ),
        ensures
            dot_text(g) == result@,
        decreases count_false(marks_of(visited@, g.len())), waiting@.len(),
    {
        if waiting.is_empty() {
            assert(result@ + Seq::<char>::empty() =~= result@);
            break ;
        }
        let ghost stack = refs_view(waiting@);
        let ghost text = result@;
        let current = waiting.pop().unwrap();
        proof {
            assert(refs_view(waiting@) =~= stack.drop_last());
            assert(stack.last() == current as nat);
            assert(stack[stack.len() - 1] < g.len());
            assert forall|i: int| 0 <= i < refs_view(waiting@).len() implies (
            #[trigger] refs_view(waiting@)[i]) < g.len() by {
                assert(stack[i] < g.len());
            }
        }
        if was_visited(&visited, current) {
            continue ;
        }
        let ghost unmarked = marks_of(visited@, g.len());
        visit(&mut visited, current);
        proof {
            assert(marks_of(visited@, g.len()) =~= unmarked.update(current as int, true));
            lemma_count_false_update(unmarked, current as int);
            assert(g[current as int] == stateg@[current as int]@);
            assert(closed_state(g[current as int], 0, g.len()));
        }
        let (out, out1) = stateg[current].next_states();
        dot_edge(stateg, &mut result, &visited, &mut waiting, current, out);
        proof {
            let first = refs_view(waiting@);
            assert forall|i: int| 0 <= i < first.len() implies (#[trigger] first[i]) < g.len() by {
                if i < stack.len() - 1 {
                    assert(stack[i] < g.len());
                }
            }
        }
        let ghost first = refs_view(waiting@);
        dot_edge(stateg, &mut result, &visited, &mut waiting, current, out1);
        proof {
            let second = refs_view(waiting@);
            let marked = marks_of(visited@, g.len());
            assert forall|i: int| 0 <= i < second.len() implies (#[trigger] second[i]) < g.len() by {
                if i < first.len() {
                    assert(first[i] < g.len());
                }
            }
            assert(result@ + dot_walk(g, marked, second) =~= text + (edge_line(
                g,
                current as nat,
                g[current as int].out,
            ) + edge_line(g, current as nat, g[current as int].out1) + dot_walk(
                g,
                marked,
                second,
            )));
        }
    }
    string_of(result.as_slice())
}

/// Whether the successor, if there is one, is a state of a graph of `states` states.
fn successor_fits(next: Option<StateRef>, states: usize) -> (r: bool)
    ensures
        r == (index_view(next) is Some ==> index_view(next)->0 < states),
{
    match next {
        Some(ix) => ix < states,
        None => true,
    }
}

/// Whether the graph can be walked: it has a first state, and every successor of a state is a
/// state of the graph.
pub fn is_well_formed(g: &StateGraph) -> (r: bool)
    ensures
        r == well_formed(graph_view(g@)),
{
    let ghost view = graph_view(g@);
    if g.len() == 0 {
        return false;
    }
    let mut k: usize = 0;
    while k < g.len()
        invariant
            k <= g@.len(),
            view == graph_view(g@),
            forall|j: int| 0 <= j < k ==> closed_state(#[trigger] view[j], 0, view.len()),
        decreases g@.len() - k,
    {
        assert(view[k as int] == g@[k as int]@);
        if !successor_fits(g[k].out, g.len()) || !successor_fits(g[k].out1, g.len()) {
            assert(!closed_state(view[k as int], 0, view.len()));
            return false;
        }
        k += 1;
    }
    true
}

/// CompiledRE is a compiled regular expression that can be used for matching. It holds a graph
/// that can be walked.
pub struct CompiledRE {
    graph: StateGraph,
}

impl View for CompiledRE {
    type V = Seq<StateView>;

    closed spec fn view(&self) -> Seq<StateView> {
        graph_view(self.graph@)
    }
}

impl CompiledRE {
    #[verifier::type_invariant]
    spec fn walkable(self) -> bool {
        well_formed(graph_view(self.graph@))
    }

    /// Wraps a graph that can be walked.
    pub fn new(graph: StateGraph) -> (r: CompiledRE)
        requires
            well_formed(graph_view(graph@)),
        ensures
            r@ == graph_view(graph@),
    {
        CompiledRE { graph }
    }

    /// The graph of the compiled regular expression.
    pub fn graph(&self) -> (g: &StateGraph)
        ensures
            graph_view(g@) == self@,
            well_formed(self@),
    {
        proof {
            use_type_invariant(self);
        }
        &self.graph
    }
}

} // verus!
