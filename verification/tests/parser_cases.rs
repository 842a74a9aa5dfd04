use rex::parse::{find_closing_paren, parse, ParseError, ParseState, CURLY_BRACKETS, SQUARE_BRACKETS};
use rex::repr::{AnchorLocation, Pattern, Repetition};

fn repeated(r: Repetition) -> Pattern {
    Pattern::Repeated(Box::new(r))
}

#[test]
fn anchors_only_at_the_edges() {
    assert_eq!(
        parse("^a$").unwrap(),
        Pattern::Concat(vec![
            Pattern::Anchor(AnchorLocation::Begin),
            Pattern::Char('a'),
            Pattern::Anchor(AnchorLocation::End),
        ])
    );
    assert_eq!(
        parse("a^").unwrap(),
        Pattern::Concat(vec![Pattern::Char('a'), Pattern::Char('^')])
    );
    assert_eq!(
        parse("$a").unwrap(),
        Pattern::Concat(vec![Pattern::Char('$'), Pattern::Char('a')])
    );
    // Only the last character of the whole expression is the anchor, not the last of a group.
    assert_eq!(
        parse("(a$)b").unwrap(),
        Pattern::Concat(vec![
            Pattern::Submatch(Box::new(Pattern::Concat(vec![
                Pattern::Char('a'),
                Pattern::Char('$'),
            ]))),
            Pattern::Char('b'),
        ])
    );
    assert_eq!(
        parse("(a$)").unwrap(),
        Pattern::Submatch(Box::new(Pattern::Concat(vec![
            Pattern::Char('a'),
            Pattern::Char('$'),
        ])))
    );
    assert_eq!(
        parse("a|b$").unwrap(),
        Pattern::Alternate(vec![
            Pattern::Char('a'),
            Pattern::Concat(vec![Pattern::Char('b'), Pattern::Anchor(AnchorLocation::End)]),
        ])
    );
    assert_eq!(parse("$").unwrap(), Pattern::Anchor(AnchorLocation::End));
    assert_eq!(
        parse("$$").unwrap(),
        Pattern::Concat(vec![Pattern::Char('$'), Pattern::Anchor(AnchorLocation::End)])
    );
}

#[test]
fn repetition_operators() {
    assert_eq!(parse("a+").unwrap(), repeated(Repetition::OnceOrMore(Pattern::Char('a'))));
    assert_eq!(parse("a*").unwrap(), repeated(Repetition::ZeroOrMore(Pattern::Char('a'))));
    assert_eq!(parse("a?").unwrap(), repeated(Repetition::ZeroOrOnce(Pattern::Char('a'))));
    assert_eq!(
        parse(".b*").unwrap(),
        Pattern::Concat(vec![
            Pattern::Any,
            repeated(Repetition::ZeroOrMore(Pattern::Char('b'))),
        ])
    );
}

#[test]
fn alternation_takes_all_that_follows() {
    assert_eq!(
        parse("ab|c|d").unwrap(),
        Pattern::Alternate(vec![
            Pattern::Concat(vec![Pattern::Char('a'), Pattern::Char('b')]),
            Pattern::Alternate(vec![Pattern::Char('c'), Pattern::Char('d')]),
        ])
    );
}

#[test]
fn counted_repetitions() {
    let a = || Pattern::Char('a');
    assert_eq!(parse("a{3}").unwrap(), repeated(Repetition::Specific(a(), 3, None)));
    assert_eq!(parse("a{2,5}").unwrap(), repeated(Repetition::Specific(a(), 2, Some(5))));
    assert_eq!(parse("a{,5}").unwrap(), repeated(Repetition::Specific(a(), 0, Some(5))));
    assert_eq!(
        parse("a{3,}").unwrap(),
        Pattern::Concat(vec![
            repeated(Repetition::Specific(a(), 3, Some(3))),
            repeated(Repetition::ZeroOrMore(a())),
        ])
    );
    // A sign may precede the digits, and what follows a second comma is not read.
    assert_eq!(parse("a{+2}").unwrap(), repeated(Repetition::Specific(a(), 2, None)));
    assert_eq!(parse("a{1,2,x}").unwrap(), repeated(Repetition::Specific(a(), 1, Some(2))));
    assert_eq!(
        parse("a{4294967295}").unwrap(),
        repeated(Repetition::Specific(a(), 4294967295, None))
    );
    assert_eq!(parse("a{0,0}").unwrap(), repeated(Repetition::Specific(a(), 0, Some(0))));
    assert_eq!(parse("a{3,3}").unwrap(), repeated(Repetition::Specific(a(), 3, Some(3))));
}

#[test]
fn empty_class_is_an_empty_alternation() {
    assert_eq!(parse("[]").unwrap(), Pattern::Alternate(vec![]));
}

#[test]
fn class_with_brackets_inside() {
    assert_eq!(
        parse("[[a]]").unwrap(),
        Pattern::CharSet(vec!['[', 'a', ']'])
    );
}

#[test]
fn syntax_errors_name_their_position() {
    for (source, message) in &[
        ("", "empty regex at :0"),
        ("()", "empty regex at :1"),
        ("a|", "empty regex at :2"),
        ("|a", "empty regex at :0"),
        ("+", "+ without pattern to repeat at :0"),
        ("a(*)", "+ without pattern to repeat at :2"),
        ("?", "+ without pattern to repeat at :0"),
        ("(a", "unmatched ( at :2"),
        ("ab(cd", "unmatched ( at :5"),
        ("[a", "unmatched [ at :2"),
        ("a{1", "unmatched { at :3"),
        ("{1}", "repetition {} without pattern to repeat at :0"),
        ("a)", "unopened ')' at :1"),
        ("a]", "unopened ']' at :1"),
        ("aaaaaaaaaaaa)", "unopened ')' at :12"),
        ("a|b)", "unopened ')' at :3"),
    ] {
        assert_eq!(*message, parse(source).unwrap_err(), "for {:?}", source);
    }
}

#[test]
fn repetition_errors_name_their_position() {
    for (source, message) in &[
        ("a{}", "invalid repetition '' at :2"),
        ("a{x}", "invalid repetition 'x' at :2"),
        ("a{-1}", "invalid repetition '-1' at :2"),
        ("a{4294967296}", "invalid repetition '4294967296' at :2"),
        ("a{3,1}", "invalid repetition '3,1' at :2"),
        ("ab{10,9,8}", "invalid repetition '10,9,8' at :3"),
        ("a{1,x}", "invalid digit found in string at :4"),
        ("a{x,1}", "invalid digit found in string at :2"),
        ("a{+,1}", "invalid digit found in string at :2"),
        ("a{1,99999999999}", "number too large to fit in target type at :4"),
        ("a{99999999999x,1}", "number too large to fit in target type at :2"),
        ("a{9x9999999999,1}", "invalid digit found in string at :2"),
        ("a{,x}", "invalid digit found in string at :3"),
        ("a{x,}", "invalid digit found in string at :2"),
        ("a{,}", "invalid repetition pattern [','] at :2"),
        ("ab{,,5}", "invalid repetition pattern [',', ',', '5'] at :3"),
        ("a{,,'}", "invalid repetition pattern [',', ',', '\\''] at :2"),
    ] {
        assert_eq!(*message, parse(source).unwrap_err(), "for {:?}", source);
    }
}

#[test]
fn parse_error_in_one_line() {
    let e = ParseError { message: "unmatched (".to_string(), position: 1234567890 };
    assert_eq!(e.to_string(), "unmatched ( at :1234567890");
    let zero = ParseError { message: String::new(), position: 0 };
    assert_eq!(zero.to_string(), " at :0");
}

#[test]
fn closing_bracket_respects_its_own_family_only() {
    let nested: Vec<char> = "((a)b)c".chars().collect();
    assert_eq!(find_closing_paren(ParseState::new(&nested), ('(', ')')), Some(5));
    let mixed: Vec<char> = "[a(]b)".chars().collect();
    assert_eq!(find_closing_paren(ParseState::new(&mixed), SQUARE_BRACKETS), Some(3));
    let other: Vec<char> = "(a)".chars().collect();
    assert_eq!(find_closing_paren(ParseState::new(&other), CURLY_BRACKETS), None);
    let empty: Vec<char> = Vec::new();
    assert_eq!(find_closing_paren(ParseState::new(&empty), CURLY_BRACKETS), None);
    let open: Vec<char> = "{{}".chars().collect();
    assert_eq!(find_closing_paren(ParseState::new(&open), CURLY_BRACKETS), None);
}

#[test]
fn parse_state_parts() {
    let src: Vec<char> = "abcdef".chars().collect();
    let s = ParseState::new(&src);
    assert_eq!(s.len(), 6);
    assert_eq!(s.pos(), 0);
    let tail = s.from(2);
    assert_eq!(tail.pos(), 2);
    assert_eq!(tail.len(), 4);
    assert_eq!(tail.index(0), 'c');
    let mid = tail.sub(1, 3);
    assert_eq!(mid.pos(), 3);
    assert_eq!(mid.len(), 2);
    assert_eq!(mid.index(1), 'e');
    let e: Result<(), ParseError> = mid.err("oops", 1);
    assert_eq!(e.unwrap_err(), ParseError { message: "oops".to_string(), position: 4 });
}
