use rex::matcher::{CharMatcher, Matchee, Matcher, StringMatcher};

#[test]
fn test_char_matcher() {
    let m1 = CharMatcher('a');
    let m2 = CharMatcher('b');
    let mut me = Matchee::from_string("xabc");
    me.reset(1);
    assert_eq!(m1.matches(&me), (true, 1));
    assert_eq!(m2.matches(&me), (false, 1));
    me.advance(1);
    assert_eq!(m2.matches(&me), (true, 1));
}

#[test]
fn test_str_matcher() {
    let m1 = StringMatcher::new("abc");
    let m2 = StringMatcher::new("def");
    let mut me = Matchee::from_string("xabcydef");
    assert_eq!(m1.matches(&me), (false, 3));
    me.advance(1);
    assert_eq!(m1.matches(&me), (true, 3));
    assert_eq!(m2.matches(&me), (false, 3));
    me.advance(3);
    assert_eq!(m2.matches(&me), (false, 3));
    me.advance(1);
    assert_eq!(m2.matches(&me), (true, 3));
}
