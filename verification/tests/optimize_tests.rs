use rex::optimize::optimize;
use rex::repr::{AnchorLocation, Pattern};

#[test]
fn test_repr_optimize() {
    // case = (want, input)
    let case1 = (
        Pattern::Str("abc".to_string()),
        Pattern::Concat(vec![
            Pattern::Char('a'),
            Pattern::Char('b'),
            Pattern::Char('c'),
        ]),
    );
    let case2 = (
        Pattern::Str("abcd".to_string()),
        Pattern::Concat(vec![
            Pattern::Str("a".to_string()),
            Pattern::Char('b'),
            Pattern::Str("cd".to_string()),
        ]),
    );
    let case3 = (
        Pattern::Concat(vec![
            Pattern::Str("abc".to_string()),
            Pattern::Anchor(AnchorLocation::End),
            Pattern::Char('d'),
        ]),
        Pattern::Concat(vec![
            Pattern::Char('a'),
            Pattern::Char('b'),
            Pattern::Char('c'),
            Pattern::Anchor(AnchorLocation::End),
            Pattern::Char('d'),
        ]),
    );

    for c in vec![case1, case2, case3].into_iter() {
        assert_eq!(c.0, optimize(c.1));
    }
}
