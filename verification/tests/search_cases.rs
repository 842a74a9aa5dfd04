use rex::compile::start_compile;
use rex::matching::{do_match, run_pass, start_match, state_key, MatchState};
use rex::optimize::optimize;
use rex::parse::parse;
use rex::repr::{Pattern, Repetition};
use rex::state::StateGraph;
use rex::{compile, match_re, match_re_str, substring};

fn graph_of(re: &str) -> StateGraph {
    start_compile(&optimize(parse(re).unwrap()))
}

fn found(re: &str, s: &str) -> (bool, Vec<(usize, usize)>) {
    match_re_str(re, s).unwrap()
}

#[test]
fn scenarios() {
    assert_eq!(found("a+", "aaa"), (true, vec![(0, 3)]));
    assert_eq!(found("aa(a+)", "aaa"), (true, vec![(0, 3), (2, 3)]));
    assert_eq!(found("^abc$", "012abcdef"), (false, vec![]));
    assert_eq!(found("abc$", "abc"), (true, vec![(0, 3)]));
    assert_eq!(found("a{1,3}", "aaaa"), (true, vec![(0, 3)]));
    assert_eq!(found("a(b(.)d)e", "0abcde"), (true, vec![(1, 6), (2, 5), (3, 4)]));
    assert!(found("(x+x+)+y", "xxxxxxxxxxy").0);
}

#[test]
fn notorious_pattern_on_a_long_subject() {
    let re = compile("(x+x+)+y").unwrap();
    let mut subject = "x".repeat(200);
    assert!(!match_re(&re, &subject).0);
    subject.push('y');
    assert_eq!(match_re(&re, &subject).1[0], (0, 201));
}

#[test]
fn walks_that_go_in_circles_come_to_an_end() {
    assert_eq!(found("(a*)*", "b"), (true, vec![(0, 0)]));
    assert_eq!(found("(a*)*b", "aab"), (true, vec![(0, 3)]));
    assert_eq!(found("(a?)+", "aa").1[0], (0, 2));
    assert_eq!(found("(a?b?c?d?)*", "d").1[0], (0, 1));
}

#[test]
fn any_character_stays_within_the_subject() {
    assert_eq!(found(".*", "abc"), (true, vec![(0, 3)]));
    assert_eq!(found("a.*", "a"), (true, vec![(0, 1)]));
    assert_eq!(found("a.", "a"), (false, vec![]));
    assert_eq!(found(".", ""), (false, vec![]));
    assert_eq!(found("a.c", "abc"), (true, vec![(0, 3)]));
}

#[test]
fn the_whole_match_comes_first() {
    for (re, s, whole) in &[
        ("b+", "aabbbc", (2, 5)),
        ("(a|ab)(c|bcd)", "xabcd", (1, 5)),
        ("(a)(b)?", "ca", (1, 2)),
        ("a(b?)(c?)", "da", (1, 2)),
        ("(((a)))", "za", (1, 2)),
        ("x*", "xxxy", (0, 3)),
        ("(a|b)*c", "ababc", (0, 5)),
    ] {
        let (matched, spans) = found(re, s);
        assert!(matched, "for {:?}", re);
        assert_eq!(spans[0], *whole, "for {:?}", re);
        for (from, to) in &spans {
            assert!(from <= to);
            assert!(*to <= s.chars().count());
        }
    }
}

#[test]
fn the_longest_match_wins() {
    assert_eq!(found("a|ab|abc", "abcd"), (true, vec![(0, 3)]));
    assert_eq!(found("(a|ab)(c|bcd)?", "abcd"), (true, vec![(0, 4), (1, 4)]));
    assert_eq!(found("a*", "aaa"), (true, vec![(0, 3)]));
}

#[test]
fn a_match_at_the_end_of_the_subject_reports_no_submatch() {
    assert_eq!(found("a?", ""), (true, vec![]));
    assert_eq!(found("$", "ab"), (true, vec![]));
    assert_eq!(found("b*$", "a"), (true, vec![]));
    assert_eq!(found("^$", ""), (true, vec![]));
    assert_eq!(found("^$", "a"), (false, vec![]));
}

#[test]
fn submatches_that_begin_at_the_same_position_share_an_entry() {
    assert_eq!(found("(a)b", "ab"), (true, vec![(0, 2)]));
    assert_eq!(found("a((b)c)", "abc"), (true, vec![(0, 3), (1, 3)]));
}

#[test]
fn the_search_goes_on_after_the_furthest_position() {
    // The pass from 0 reaches position 2, so the next pass begins at 3 and the match at 1 is
    // not found.
    assert_eq!(found("a[ab]c", "aabc"), (false, vec![]));
    assert_eq!(found("a[ab]c", "xabc"), (true, vec![(1, 4)]));
    assert_eq!(found("a{1,3}$", "aaaa"), (false, vec![]));
}

#[test]
fn positions_count_characters() {
    assert_eq!(found("é+", "aééb"), (true, vec![(1, 3)]));
    assert_eq!(found("(ü)$", "日本ü"), (true, vec![(2, 3)]));
    assert_eq!(found("[α-ω]+", "abc αβγ"), (true, vec![(4, 7)]));
}

#[test]
fn compiling_once_and_matching_often() {
    let re = compile("^(Hello)? [Ww]orld!?$").unwrap();
    assert_eq!(match_re(&re, "Hello world"), (true, vec![(0, 11)]));
    assert_eq!(match_re(&re, " World!"), (true, vec![(0, 7)]));
    assert_eq!(match_re(&re, "Hello World"), (true, vec![(0, 11)]));
    assert_eq!(match_re(&re, "Hallo World"), (false, vec![]));
    assert_eq!(re.graph().len(), graph_of("^(Hello)? [Ww]orld!?$").len());
}

#[test]
fn errors_of_the_whole_pipeline() {
    assert_eq!(compile("a(b").err().unwrap(), "unmatched ( at :3");
    assert_eq!(match_re_str("a)", "a").unwrap_err(), "unopened ')' at :1");
    assert_eq!(compile("a{3,1}").err().unwrap(), "invalid repetition '3,1' at :2");
    assert_eq!(match_re_str("a{3,1}", "aaa").unwrap_err(), "invalid repetition '3,1' at :2");
    assert_eq!(rex::parse("a{,}").unwrap_err(), "invalid repetition pattern [','] at :2");
    // Whatever the parser accepts is compiled.
    for re in &["[]", "a{0,0}", "x(a{,0})", "[]|[]", "([])+", "a{0}{0,0}"] {
        assert!(compile(re).is_ok(), "for {:?}", re);
        assert!(match_re_str(re, "a").is_ok(), "for {:?}", re);
    }
}

#[test]
fn no_repetition_matches_the_empty_string() {
    assert_eq!(found("a{0,0}", "aa"), (true, vec![(0, 0)]));
    assert_eq!(found("a{,0}", ""), (true, vec![]));
    assert_eq!(found("a{0,0}b", "ab"), (true, vec![(1, 2)]));
    assert_eq!(found("x(a{,0})y", "xy"), (true, vec![(0, 2), (1, 1)]));
    assert_eq!(found("xa{0,0}y", "xay"), (false, vec![]));
}

#[test]
fn no_alternative_matches_nothing() {
    assert_eq!(found("[]", "a"), (false, vec![]));
    assert_eq!(found("[]", ""), (false, vec![]));
    assert_eq!(found("x[]", "xx"), (false, vec![]));
    assert_eq!(found("x[]?y", "xy"), (true, vec![(0, 2)]));
}

#[test]
fn a_dollar_inside_the_expression_is_a_character() {
    assert_eq!(found("(a$)b", "a$b"), (true, vec![(0, 3)]));
    assert_eq!(found("(a$)b", "ab"), (false, vec![]));
    assert_eq!(found("a$|b", "a$"), (true, vec![(0, 2)]));
    assert_eq!(found("a|b$", "cb"), (true, vec![(1, 2)]));
    assert_eq!(found("a|b$", "bc"), (false, vec![]));
}

#[test]
fn one_pass_from_a_position() {
    let g = graph_of("ab+");
    let mut ms = MatchState::new("xabbb", 0);
    assert_eq!(state_key(&ms), (0, 0));
    // From position 0 nothing matches and nothing beyond it is reached.
    let (matched, reached, captures) = start_match(&g, ms.clone());
    assert!(!matched);
    assert_eq!(reached, 0);
    assert!(captures.is_empty());
    ms.reset(1);
    assert_eq!(state_key(&ms), (1, 0));
    let (matched, _, captures) = start_match(&g, ms.clone());
    assert!(matched);
    assert_eq!(captures, vec![None, Some(5), None, None, None, None]);
    // A failed pass tells how far it came.
    let h = graph_of("abc");
    let (matched, reached, _) = start_match(&graph_of("a.c"), MatchState::new("abd", 0));
    assert!(!matched);
    assert_eq!(reached, 2);
    assert_eq!(do_match(&h, "ababc"), (true, vec![(2, 5)]));
}

#[test]
fn states_move_and_fork() {
    let mut ms = MatchState::new("abc", 0);
    let forked = ms.fork(3, 2);
    assert_eq!(state_key(&forked), (2, 3));
    assert_eq!(state_key(&ms), (0, 0));
    ms.update(1, 1);
    assert_eq!(state_key(&ms), (1, 1));
    ms.start_submatch();
    ms.update(2, 1);
    ms.stop_submatch();
    let g = graph_of("abc");
    let (matched, _, captures) = start_match(&g, ms.clone());
    // The state is at the end state of the graph: it ends a match where it stands.
    assert!(matched);
    assert_eq!(captures, vec![None, Some(2), None, None]);
}

#[test]
fn trace_of_a_state() {
    let g = graph_of("a?");
    let mut ms = MatchState::new("ab", 3);
    ms.update(3, 1);
    assert_eq!(
        ms.debug(&g),
        "ab\n ^   (<3> next: 1. <Some(1)> m:CharMatcher('a') sub: 2. <Some(2)> m:_ sub:)\n"
    );
    let end = MatchState::new("ab", 4);
    assert_eq!(end.debug(&g), "ab\n^   (<4> next: 1. <None>  2. <None> )\n");
}

#[test]
fn substrings() {
    assert_eq!(substring("hello", (1, 3)), "ell");
    assert_eq!(substring("hello", (0, 5)), "hello");
    assert_eq!(substring("hello", (3, 10)), "lo");
    assert_eq!(substring("hello", (5, 1)), "");
    assert_eq!(substring("hello", (9, 1)), "");
    assert_eq!(substring("hello", (2, 0)), "");
    assert_eq!(substring("日本語", (1, 1)), "本");
    assert_eq!(substring("abc", (1, usize::MAX)), "bc");
}

#[test]
fn an_empty_class_among_alternatives_is_passed_over() {
    // The empty alternation offers no alternative, and the optimizer takes it away.
    assert_eq!(found("[]|a", "xa"), (true, vec![(1, 2)]));
    assert!(compile("a|[]").is_ok());
}

#[test]
fn counted_repetitions_without_an_upper_limit() {
    assert_eq!(found("a{2}", "aaaa"), (true, vec![(0, 4)]));
    assert_eq!(found("a{2,}", "aaaa"), (true, vec![(0, 4)]));
    assert_eq!(found("a{0}", "b"), (true, vec![(0, 0)]));
    assert_eq!(found("ba{0}", "baa"), (true, vec![(0, 3)]));
    assert_eq!(found("a{2,3}", "aaaa"), (true, vec![(0, 3)]));
    assert_eq!(found("a{2,2}b", "aaab"), (false, vec![]));
    assert_eq!(found("a{2,2}b", "xaab"), (true, vec![(1, 4)]));
}

#[test]
fn the_notorious_pattern_matches_from_two_x_on() {
    let some_x = || Pattern::Repeated(Box::new(Repetition::OnceOrMore(Pattern::Char('x'))));
    let groups = Pattern::Repeated(Box::new(Repetition::OnceOrMore(Pattern::Submatch(Box::new(
        Pattern::Concat(vec![some_x(), some_x()]),
    )))));
    assert_eq!(
        parse("(x+x+)+y").unwrap(),
        Pattern::Concat(vec![groups, Pattern::Char('y')])
    );
    let re = compile("(x+x+)+y").unwrap();
    assert_eq!(match_re(&re, "y"), (false, vec![]));
    assert_eq!(match_re(&re, "xy"), (false, vec![]));
    for k in 2..40 {
        let mut subject = "x".repeat(k);
        subject.push('y');
        assert_eq!(match_re(&re, &subject), (true, vec![(0, k + 1)]), "for {} x", k);
    }
}

#[test]
fn a_pass_hands_its_table_back_empty() {
    let g = graph_of("a(b|c)*d");
    let subject = "abcbd";
    let table: Vec<Vec<bool>> = vec![vec![false; g.len()]; subject.len() + 1];
    let (found, table) = run_pass(&g, MatchState::new(subject, 0), table);
    assert_eq!(found.0, true);
    // The whole match from 0, and the group once from each of 1, 2 and 3.
    assert_eq!(found.2, vec![Some(5), Some(2), Some(3), Some(4), None, None]);
    assert!(table.iter().all(|row| row.iter().all(|noted| !noted)));
    assert_eq!(table.len(), subject.len() + 1);
    // The same table serves the next pass.
    let mut next = MatchState::new(subject, 0);
    next.reset(1);
    let (found, table) = run_pass(&g, next, table);
    assert_eq!(found.0, false);
    assert_eq!(found.1, 1);
    assert!(table.iter().all(|row| row.iter().all(|noted| !noted)));
}
