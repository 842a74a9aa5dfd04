use rex::optimize::{concat_chars_to_str, flatten_alternate, optimize};
use rex::parse::parse;
use rex::repr::{AnchorLocation, Pattern, Repetition};

fn chars(s: &str) -> Vec<Pattern> {
    s.chars().map(Pattern::Char).collect()
}

fn adjacent_literals(p: &Pattern) -> bool {
    let is_literal = |p: &Pattern| matches!(p, Pattern::Char(_) | Pattern::Str(_));
    match p {
        Pattern::Concat(ps) => {
            ps.windows(2).any(|w| is_literal(&w[0]) && is_literal(&w[1]))
                || ps.iter().any(adjacent_literals)
        }
        Pattern::Alternate(ps) => ps.iter().any(adjacent_literals),
        Pattern::Submatch(q) => adjacent_literals(q),
        Pattern::Repeated(r) => match &**r {
            Repetition::ZeroOrOnce(q)
            | Repetition::ZeroOrMore(q)
            | Repetition::OnceOrMore(q)
            | Repetition::Specific(q, _, _) => adjacent_literals(q),
        },
        _ => false,
    }
}

fn nested_alternate(p: &Pattern) -> bool {
    match p {
        Pattern::Alternate(ps) => {
            ps.iter().any(|q| matches!(q, Pattern::Alternate(_))) || ps.iter().any(nested_alternate)
        }
        Pattern::Concat(ps) => ps.iter().any(nested_alternate),
        Pattern::Submatch(q) => nested_alternate(q),
        Pattern::Repeated(r) => match &**r {
            Repetition::ZeroOrOnce(q)
            | Repetition::ZeroOrMore(q)
            | Repetition::OnceOrMore(q)
            | Repetition::Specific(q, _, _) => nested_alternate(q),
        },
        _ => false,
    }
}

fn samples() -> Vec<Pattern> {
    let mut all: Vec<Pattern> = [
        "abc",
        "a|b|c|d",
        "ab(cd|ef)gh",
        "a{2,}bc",
        "(ab)+cd*",
        "[a-c]x|yz|(p|q|rs)",
        "^ab.cd$",
        "a(b(.)d)e",
        "(x+x+)+y",
    ]
    .iter()
    .map(|s| parse(s).unwrap())
    .collect();
    all.push(Pattern::Concat(vec![
        Pattern::Concat(chars("ab")),
        Pattern::Char('c'),
    ]));
    all.push(Pattern::Concat(vec![Pattern::Str(String::new())]));
    all.push(Pattern::Concat(vec![Pattern::Str("a".to_string()), Pattern::Any]));
    all.push(Pattern::Alternate(vec![
        Pattern::Alternate(vec![Pattern::Alternate(vec![Pattern::Char('a')])]),
    ]));
    all.push(Pattern::Alternate(vec![]));
    all.push(Pattern::Concat(vec![]));
    all
}

#[test]
fn optimizing_twice_changes_nothing() {
    for p in samples() {
        let once = optimize(p.clone());
        let twice = optimize(once.clone());
        assert_eq!(once, twice, "for {:?}", p);
    }
}

#[test]
fn optimized_patterns_have_the_optimized_shape() {
    for p in samples() {
        let once = optimize(p.clone());
        assert!(!adjacent_literals(&once), "for {:?}", p);
        assert!(!nested_alternate(&once), "for {:?}", p);
    }
}

#[test]
fn optimizing_works_from_the_leaves_up() {
    // The inner sequence becomes a string first, and is then merged with its neighbour.
    let p = Pattern::Concat(vec![Pattern::Concat(chars("ab")), Pattern::Char('c')]);
    assert_eq!(optimize(p), Pattern::Str("abc".to_string()));
    let q = Pattern::Concat(vec![
        Pattern::Alternate(vec![Pattern::Char('a')]),
        Pattern::Char('b'),
    ]);
    assert_eq!(optimize(q), Pattern::Str("ab".to_string()));
}

#[test]
fn nested_sequences_are_kept() {
    let p = parse("a{2,}b").unwrap();
    let inner = Pattern::Concat(vec![
        Pattern::Repeated(Box::new(Repetition::Specific(Pattern::Char('a'), 2, Some(2)))),
        Pattern::Repeated(Box::new(Repetition::ZeroOrMore(Pattern::Char('a')))),
    ]);
    assert_eq!(optimize(p), Pattern::Concat(vec![inner, Pattern::Char('b')]));
}

#[test]
fn merging_characters_and_strings() {
    assert_eq!(
        concat_chars_to_str(Pattern::Concat(chars("a"))),
        Pattern::Char('a')
    );
    assert_eq!(
        concat_chars_to_str(Pattern::Concat(vec![
            Pattern::Any,
            Pattern::Char('a'),
            Pattern::Str("bc".to_string()),
            Pattern::Anchor(AnchorLocation::End),
            Pattern::Str("d".to_string()),
        ])),
        Pattern::Concat(vec![
            Pattern::Any,
            Pattern::Str("abc".to_string()),
            Pattern::Anchor(AnchorLocation::End),
            Pattern::Char('d'),
        ])
    );
    assert_eq!(
        concat_chars_to_str(Pattern::Concat(vec![Pattern::Str(String::new()), Pattern::Any])),
        Pattern::Any
    );
    assert_eq!(concat_chars_to_str(Pattern::Concat(vec![])), Pattern::Concat(vec![]));
    // Only a sequence is looked at, and only its own elements.
    assert_eq!(
        concat_chars_to_str(Pattern::Alternate(chars("ab"))),
        Pattern::Alternate(chars("ab"))
    );
}

#[test]
fn flattening_alternations() {
    let nested = Pattern::Alternate(vec![
        Pattern::Char('a'),
        Pattern::Alternate(vec![
            Pattern::Char('b'),
            Pattern::Alternate(vec![Pattern::Char('c'), Pattern::Char('d')]),
        ]),
        Pattern::Char('e'),
    ]);
    assert_eq!(flatten_alternate(nested), Pattern::Alternate(chars("abcde")));
    assert_eq!(
        flatten_alternate(Pattern::Alternate(vec![Pattern::Alternate(chars("a"))])),
        Pattern::Char('a')
    );
    assert_eq!(flatten_alternate(Pattern::Any), Pattern::Any);
    assert_eq!(
        flatten_alternate(Pattern::Alternate(vec![])),
        Pattern::Alternate(vec![])
    );
}
