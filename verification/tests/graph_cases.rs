use rex::compile::{is_compilable, start_compile, Compile};
use rex::matcher::{
    wrap_matcher, AnchorMatcher, AnyMatcher, CharMatcher, CharRangeMatcher, CharSetMatcher,
    Matchee, Matcher, StringMatcher, WrappedMatcher,
};
use rex::optimize::optimize;
use rex::parse::parse;
use rex::repr::{Pattern, Repetition};
use rex::state::{dot, is_well_formed, State, StateGraph, Submatch};

fn graph_of(re: &str) -> StateGraph {
    start_compile(&optimize(parse(re).unwrap()))
}

fn edges(g: &StateGraph) -> Vec<(Option<usize>, Option<usize>)> {
    g.iter().map(|s| s.next_states()).collect()
}

#[test]
fn compiled_graph_is_bracketed() {
    for re in &["a", "abc", "a|b|c", "(a+)?b*", "a{2,4}", "a{3}", "(x+x+)+y", "[a-c]{,2}$"] {
        let g = graph_of(re);
        assert!(g.len() >= 2);
        assert_eq!(g[0].sub, Some(Submatch::Start), "for {:?}", re);
        let last = g.len() - 1;
        assert_eq!(g[last].sub, Some(Submatch::End), "for {:?}", re);
        assert!(g[last].is_last());
        for (i, s) in g.iter().enumerate() {
            if i != last {
                assert!(!s.is_last(), "state {} of {:?}", i, re);
            }
            for next in [s.out, s.out1].iter().flatten() {
                assert!(*next < g.len());
            }
        }
    }
}

#[test]
fn graph_of_a_character() {
    let g = graph_of("a");
    assert_eq!(edges(&g), vec![(Some(1), None), (Some(2), None), (None, None)]);
    assert!(!g[0].has_matcher());
    assert!(g[1].has_matcher());
    assert_eq!(g[1].sub, None);
}

#[test]
fn graph_of_an_optional_character() {
    // 1: the character, 2: after, 3: before with the fork.
    let g = graph_of("a?");
    assert_eq!(
        edges(&g),
        vec![
            (Some(3), None),
            (Some(2), None),
            (Some(4), None),
            (Some(1), Some(2)),
            (None, None),
        ]
    );
}

#[test]
fn graph_of_a_star() {
    // 1: the character, 2: before, 3: after with the way back.
    let g = graph_of("a*");
    assert_eq!(
        edges(&g),
        vec![
            (Some(2), None),
            (Some(3), None),
            (Some(1), Some(3)),
            (Some(1), Some(4)),
            (None, None),
        ]
    );
}

#[test]
fn graph_of_a_plus() {
    let g = graph_of("a+");
    assert_eq!(
        edges(&g),
        vec![(Some(1), None), (Some(2), None), (Some(1), Some(3)), (None, None)]
    );
}

#[test]
fn graph_of_a_submatch() {
    let g = graph_of("(a)");
    assert_eq!(
        edges(&g),
        vec![
            (Some(2), None),
            (Some(3), None),
            (Some(1), None),
            (Some(4), None),
            (None, None),
        ]
    );
    assert_eq!(g[2].sub, Some(Submatch::Start));
    assert_eq!(g[3].sub, Some(Submatch::End));
}

#[test]
fn graph_of_an_alternation_is_split_in_halves() {
    // a | (b | c): the fork of the right half comes before the fork of the whole.
    let g = graph_of("a|b|c");
    assert_eq!(
        edges(&g),
        vec![
            (Some(5), None),
            (Some(6), None),
            (Some(6), None),
            (Some(6), None),
            (Some(2), Some(3)),
            (Some(1), Some(4)),
            (None, None),
        ]
    );
}

#[test]
fn graph_of_a_sequence() {
    let g = graph_of("a.b");
    assert_eq!(
        edges(&g),
        vec![(Some(1), None), (Some(2), None), (Some(3), None), (Some(4), None), (None, None)]
    );
}

#[test]
fn counted_repetition_is_a_sequence_of_copies() {
    let counted = graph_of("a{1,3}");
    let spelled = start_compile(&Pattern::Concat(vec![
        Pattern::Char('a'),
        Pattern::Repeated(Box::new(Repetition::ZeroOrOnce(Pattern::Char('a')))),
        Pattern::Repeated(Box::new(Repetition::ZeroOrOnce(Pattern::Char('a')))),
    ]));
    assert_eq!(edges(&counted), edges(&spelled));
    let open = graph_of("a{2}");
    let spelled = start_compile(&Pattern::Concat(vec![
        Pattern::Char('a'),
        Pattern::Char('a'),
        Pattern::Repeated(Box::new(Repetition::ZeroOrMore(Pattern::Char('a')))),
    ]));
    assert_eq!(edges(&open), edges(&spelled));
}

#[test]
fn to_state_returns_entry_and_loose_ends() {
    let mut g: StateGraph = Vec::new();
    g.push(State::default());
    let (entry, loose) = parse("a|b").unwrap().to_state(&mut g);
    assert_eq!(entry, 3);
    assert_eq!(loose, vec![1, 2]);
    assert_eq!(g.len(), 4);
    let (entry, loose) = parse("c+").unwrap().to_state(&mut g);
    assert_eq!(entry, 4);
    assert_eq!(loose, vec![5]);
}

#[test]
fn patterns_that_cannot_be_compiled() {
    assert!(is_compilable(&parse("a(b|c)*d{2,3}").unwrap()));
    assert!(is_compilable(&parse("a{0}").unwrap()));
    assert!(is_compilable(&parse("[]").unwrap()));
    assert!(is_compilable(&parse("a{0,0}").unwrap()));
    assert!(is_compilable(&parse("(a{,0})+").unwrap()));
    assert!(!is_compilable(&Pattern::Concat(vec![])));
    assert!(!is_compilable(&Pattern::Submatch(Box::new(Pattern::Concat(vec![])))));
    let contradicting = Repetition::Specific(Pattern::Char('a'), 3, Some(1));
    assert!(!is_compilable(&Pattern::Repeated(Box::new(contradicting))));
}

#[test]
fn graph_of_no_repetition_consumes_nothing() {
    // 1: a state without a matcher between the first state and the last.
    let g = graph_of("a{0,0}");
    assert_eq!(edges(&g), vec![(Some(1), None), (Some(2), None), (None, None)]);
    assert!(!g[1].has_matcher());
    assert_eq!(g[1].sub, None);
}

#[test]
fn graph_of_no_alternative_accepts_nothing() {
    // 1: a state whose matcher accepts no character.
    let g = graph_of("[]");
    assert_eq!(edges(&g), vec![(Some(1), None), (Some(2), None), (None, None)]);
    assert_eq!(g[1].to_string(), "m:CharSetMatcher([]) sub:");
}

#[test]
fn graphs_that_can_be_walked() {
    assert!(is_well_formed(&graph_of("(a|b)*c{2,3}")));
    assert!(is_well_formed(&graph_of("[]")));
    assert!(!is_well_formed(&Vec::new()));
    let mut g = graph_of("a");
    g[1].out1 = Some(3);
    assert!(!is_well_formed(&g));
    g[1].out1 = Some(2);
    assert!(is_well_formed(&g));
    g[0].out = Some(7);
    assert!(!is_well_formed(&g));
}

#[test]
fn patching_fills_the_first_free_place() {
    let mut s = State::default();
    assert!(s.is_last());
    s.patch(7);
    assert_eq!(s.next_states(), (Some(7), None));
    s.patch(9);
    assert_eq!(s.next_states(), (Some(7), Some(9)));
    assert!(!s.is_last());
}

#[test]
fn state_labels() {
    let mut s = State::default();
    assert_eq!(s.to_string(), "m:_ sub:");
    s.sub = Some(Submatch::End);
    assert_eq!(s.to_string(), "m:_ sub:End");
    s.sub = Some(Submatch::Start);
    s.matcher = wrap_matcher(WrappedMatcher::Char(CharMatcher('a')));
    assert_eq!(s.to_string(), "m:CharMatcher('a') sub:Start");
}

#[test]
fn matcher_descriptions() {
    assert_eq!(CharMatcher('\n').describe(), "CharMatcher('\\n')");
    assert_eq!(CharMatcher('\'').describe(), "CharMatcher('\\'')");
    assert_eq!(StringMatcher::new("ab").describe(), "StringMatcher(['a', 'b'])");
    assert_eq!(StringMatcher::new("").describe(), "StringMatcher([])");
    assert_eq!(CharRangeMatcher('a', 'z').describe(), "CharRangeMatcher('a', 'z')");
    assert_eq!(CharSetMatcher(vec!['x']).describe(), "CharSetMatcher(['x'])");
    assert_eq!(AnyMatcher.describe(), "AnyMatcher");
    assert_eq!(AnchorMatcher::Begin.describe(), "Begin");
    assert_eq!(AnchorMatcher::End.describe(), "End");
    assert_eq!(WrappedMatcher::Any(AnyMatcher).describe(), "AnyMatcher");
}

#[test]
fn matchers_at_a_position() {
    let mut me = Matchee::from_string("ab");
    assert_eq!(CharRangeMatcher('a', 'c').matches(&me), (true, 1));
    assert_eq!(CharRangeMatcher('b', 'c').matches(&me), (false, 1));
    assert_eq!(CharSetMatcher(vec!['x', 'a']).matches(&me), (true, 1));
    assert_eq!(CharSetMatcher(vec![]).matches(&me), (false, 1));
    assert_eq!(AnchorMatcher::Begin.matches(&me), (true, 0));
    assert_eq!(AnchorMatcher::End.matches(&me), (false, 0));
    assert_eq!(StringMatcher::new("").matches(&me), (true, 0));
    assert_eq!(StringMatcher::new("abc").matches(&me), (false, 3));
    me.advance(2);
    assert!(me.finished());
    assert_eq!(me.pos(), 2);
    assert_eq!(me.len(), 2);
    // At the end of the subject only the end anchor and the any-matcher accept.
    assert_eq!(CharMatcher('b').matches(&me), (false, 1));
    assert_eq!(CharRangeMatcher('a', 'c').matches(&me), (false, 1));
    assert_eq!(CharSetMatcher(vec!['a', 'b']).matches(&me), (false, 1));
    assert_eq!(AnyMatcher.matches(&me), (true, 1));
    assert_eq!(AnchorMatcher::Begin.matches(&me), (false, 0));
    assert_eq!(AnchorMatcher::End.matches(&me), (true, 0));
    assert_eq!(StringMatcher::new("").matches(&me), (true, 0));
    assert_eq!(WrappedMatcher::Anchor(AnchorMatcher::End).matches(&me), (true, 0));
    me.advance(3);
    assert_eq!(CharMatcher('b').matches(&me), (false, 1));
    assert_eq!(StringMatcher::new("b").matches(&me), (false, 1));
}

#[test]
fn matchee_as_text() {
    let mut me = Matchee::from_string("héllo");
    assert_eq!(me.len(), 5);
    assert_eq!(me.string(), "héllo\n^");
    me.reset(2);
    assert_eq!(me.current(), 'l');
    assert_eq!(me.string(), "héllo\n  ^");
    let other = me.clone();
    assert_eq!(other.pos(), 2);
    assert_eq!(other.string(), "héllo\n  ^");
}

#[test]
fn rendering_a_small_graph() {
    let g = graph_of("a");
    assert_eq!(
        dot(&g),
        "\"0 m:_ sub:Start\" -> \"1 m:CharMatcher('a') sub:\";\n\
         \"1 m:CharMatcher('a') sub:\" -> \"2 m:_ sub:End\";\n"
    );
    assert_eq!(
        rex::render_graph("a"),
        "digraph st { \"0 m:_ sub:Start\" -> \"1 m:CharMatcher('a') sub:\";\n\
         \"1 m:CharMatcher('a') sub:\" -> \"2 m:_ sub:End\";\n }"
    );
}

#[test]
fn rendering_visits_every_edge_once() {
    // The fork of `a*` leads back: each of the six edges is written once, the first successor
    // of a state before the second, and the second successor is followed first.
    let g = graph_of("a*");
    assert_eq!(
        dot(&g),
        "\"0 m:_ sub:Start\" -> \"2 m:_ sub:\";\n\
         \"2 m:_ sub:\" -> \"1 m:CharMatcher('a') sub:\";\n\
         \"2 m:_ sub:\" -> \"3 m:_ sub:\";\n\
         \"3 m:_ sub:\" -> \"1 m:CharMatcher('a') sub:\";\n\
         \"3 m:_ sub:\" -> \"4 m:_ sub:End\";\n\
         \"1 m:CharMatcher('a') sub:\" -> \"3 m:_ sub:\";\n"
    );
}
