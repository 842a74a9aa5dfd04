use rex::compile::start_compile;
use rex::parse::{find_closing_paren, parse, parse_char_set, ParseState, ROUND_PARENS};
use rex::repr::Pattern;
use rex::state::dot;

#[test]
fn test_find_closing_paren() {
    for case in &[
        ("(abc)de", Some(4)),
        ("()a", Some(1)),
        ("(abcd)", Some(5)),
        ("(abc", None),
    ] {
        let src: Vec<char> = case.0.chars().collect();
        assert_eq!(
            find_closing_paren(ParseState::new(src.as_ref()), ROUND_PARENS),
            case.1
        );
    }
}

#[test]
fn test_parse_charset() {
    for case in &[
        ("[a]", Pattern::Char('a')),
        ("[ab]", Pattern::CharSet(vec!['a', 'b'])),
        ("[ba-]", Pattern::CharSet(vec!['b', 'a', '-'])),
        ("[a-z]", Pattern::CharRange('a', 'z')),
        (
            "[a-z-]",
            Pattern::Alternate(vec![Pattern::CharRange('a', 'z'), Pattern::Char('-')]),
        ),
        (
            "[-a-z-]",
            Pattern::Alternate(vec![
                Pattern::CharRange('a', 'z'),
                Pattern::CharSet(vec!['-', '-']),
            ]),
        ),
        (
            "[a-zA-Z]",
            Pattern::Alternate(vec![
                Pattern::CharRange('a', 'z'),
                Pattern::CharRange('A', 'Z'),
            ]),
        ),
        (
            "[a-zA-Z-]",
            Pattern::Alternate(vec![
                Pattern::CharRange('a', 'z'),
                Pattern::CharRange('A', 'Z'),
                Pattern::Char('-'),
            ]),
        ),
    ] {
        let src: Vec<char> = case.0.chars().collect();
        let st = ParseState::new(&src);
        assert_eq!(parse_char_set(st).unwrap().0, case.1);
    }
}

#[test]
fn test_parse_subs() {
    let case1 = (
        "a(b)c",
        Pattern::Concat(vec![
            Pattern::Char('a'),
            Pattern::Submatch(Box::new(Pattern::Char('b'))),
            Pattern::Char('c'),
        ]),
    );
    let case2 = ("(b)", Pattern::Submatch(Box::new(Pattern::Char('b'))));

    for c in &[case1, case2] {
        assert_eq!(c.1, parse(c.0).unwrap());
    }
}

#[test]
fn test_parse_res() {
    let case1 = (
        "a(Bcd)e",
        Pattern::Concat(vec![
            Pattern::Char('a'),
            Pattern::Submatch(Box::new(Pattern::Concat(vec![
                Pattern::Char('B'),
                Pattern::Char('c'),
                Pattern::Char('d'),
            ]))),
            Pattern::Char('e'),
        ]),
    );

    for c in &[case1] {
        assert_eq!(c.1, parse(c.0).unwrap());
    }
}

#[test]
fn test_parse_res_errors() {
    let case1 = ("ac)d", "unopened ')' at :2");
    let case2 = ("(ac)d)", "unopened ')' at :5");
    let case3 = ("[ac]d]", "unopened ']' at :5");
    let case4 = ("(ac)d]", "unopened ']' at :5");

    for c in &[case1, case2, case3, case4] {
        assert_eq!(c.1, parse(c.0).unwrap_err());
    }
}

#[test]
fn test_parse_repetition_manual() {
    println!(
        "digraph st {{ {} }}",
        dot(&start_compile(&parse("[abc]{1,5}").unwrap()))
    );
}

#[test]
fn test_parse_manual() {
    let rep = parse("a|[bed]|(c|d|e)|f").unwrap();
    println!("{:?}", rep.clone());

    let dot = dot(&start_compile(&rep));
    println!("digraph st {{ {} }}", dot);
}

#[test]
fn test_parse_manual2() {
    println!("{:?}", parse("abcdef"));
}
