use rex::compile::start_compile;
use rex::repr::{Pattern, Repetition};
use rex::state::dot;

// Returns compiled form of /(a[bc])?(cd)*(e|f)+x{1,3}(g|hh|i)j{2,}klm/
fn simple_re1() -> Pattern {
    Pattern::Concat(vec![
        Pattern::Repeated(Box::new(Repetition::ZeroOrOnce(Pattern::Submatch(
            Box::new(Pattern::Concat(vec![
                Pattern::Char('a'),
                Pattern::CharRange('b', 'c'),
            ])),
        )))),
        Pattern::Repeated(Box::new(Repetition::ZeroOrMore(Pattern::Submatch(
            Box::new(Pattern::Concat(vec![
                Pattern::Char('c'),
                Pattern::Char('d'),
            ])),
        )))),
        Pattern::Submatch(Box::new(Pattern::Repeated(Box::new(
            Repetition::OnceOrMore(Pattern::Alternate(vec![
                (Pattern::Char('e')),
                (Pattern::Char('f')),
            ])),
        )))),
        Pattern::Repeated(Box::new(Repetition::Specific(
            Pattern::Char('x'),
            1,
            Some(3),
        ))),
        Pattern::Alternate(vec![
            Pattern::Char('g'),
            Pattern::Repeated(Box::new(Repetition::Specific(
                Pattern::Char('h'),
                2,
                Some(2),
            ))),
            (Pattern::Char('i')),
        ]),
        Pattern::Repeated(Box::new(Repetition::Specific(Pattern::Char('j'), 2, None))),
        Pattern::Str("klm".to_string()),
    ])
}

#[test]
fn test_re1() {
    let dot = dot(&start_compile(&simple_re1()));
    println!("digraph st {{ {} }}", dot);
}
