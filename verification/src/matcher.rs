//! Matchers: the predicates that the states of a graph apply to one position of the subject.

use crate::text::{
    append_chars, append_debug_char, append_debug_list, append_str, char_at, char_debug, chars_of,
    debug_list, string_of,
};
use std::rc::Rc;
use vstd::prelude::*;

verus! {

/// Shares a reference-counted value: `Rc::clone` returns a second handle to the same value.
#[verifier::external_body]
pub(crate) fn rc_clone<T>(rc: &Rc<T>) -> (r: Rc<T>)
    ensures
        r == *rc,
{
    Rc::clone(rc)
}

/// Matchee contains a subject and a position in it. It's used by the matching logic to check
/// whether a certain position within a string is matched by a matcher.
#[derive(Debug)]
pub struct Matchee {
    /// A random-addressable string to be matched. This is the overall string. It's wrapped
    /// inside a shared pointer because during the matching process, there may be different
    /// Matchees at different positions within the subject.
    src: Rc<Vec<char>>,
    /// Current index within the matched string.
    ix: usize,
}

/// The mathematical value of a `Matchee`: the characters of the subject and a position.
pub struct MatcheeView {
    pub src: Seq<char>,
    pub ix: nat,
}

impl View for Matchee {
    type V = MatcheeView;

    closed spec fn view(&self) -> MatcheeView {
        MatcheeView { src: self.src@, ix: self.ix as nat }
    }
}

/// `n` spaces.
pub open spec fn spaces(n: nat) -> Seq<char> {
    Seq::new(n, |i: int| ' ')
}

impl Clone for Matchee {
    fn clone(&self) -> (r: Self)
        ensures
            r@ == self@,
    {
        Matchee { src: rc_clone(&self.src), ix: self.ix }
    }
}

impl Matchee {
    pub fn from_string(s: &str) -> (r: Matchee)
        ensures
            r@.src == s@,
            r@.ix == 0,
    {
        Matchee { src: Rc::new(chars_of(s)), ix: 0 }
    }

    /// The character at the current position, which must lie within the subject.
    pub fn current(&self) -> (c: char)
        requires
            self@.ix < self@.src.len(),
        ensures
            c == self@.src[self@.ix as int],
    {
        char_at(self.src.as_slice(), self.ix)
    }

    pub fn pos(&self) -> (r: usize)
        ensures
            r == self@.ix,
    {
        self.ix
    }

    pub fn len(&self) -> (r: usize)
        ensures
            r == self@.src.len(),
    {
        self.src.len()
    }

    /// advance takes the result of a matcher and advances the cursor in the Matchee.
    pub fn advance(&mut self, n: usize)
        requires
            old(self)@.ix + n <= usize::MAX,
        ensures
            final(self)@.src == old(self)@.src,
            final(self)@.ix == old(self)@.ix + n,
    {
        self.ix += n;
    }

    pub fn reset(&mut self, n: usize)
        ensures
            final(self)@.src == old(self)@.src,
            final(self)@.ix == n,
    {
        self.ix = n;
    }

    pub fn finished(&self) -> (r: bool)
        ensures
            r == (self@.ix == self@.src.len()),
    {
        self.ix == self.src.len()
    }

    /// The subject, and below it a caret under the current position.
    pub fn string(&self) -> (r: String)
        ensures
            r@ == self@.src + seq!['\n'] + spaces(self@.ix) + seq!['^'],
    {
        let mut out: Vec<char> = Vec::new();
        append_chars(&mut out, self.src.as_slice());
        out.push('\n');
        let ghost head = out@;
        let mut i: usize = 0;
        while i < self.ix
            invariant
                i <= self.ix,
                out@ == head + spaces(i as nat),
            decreases self.ix - i,
        {
            out.push(' ');
            i += 1;
            assert(out@ =~= head + spaces(i as nat));
        }
        out.push('^');
        assert(out@ =~= self@.src + seq!['\n'] + spaces(self@.ix) + seq!['^']);
        string_of(out.as_slice())
    }
}

/// What a matcher looks for.
pub enum MatcherKind {
    /// One given character.
    Char(char),
    /// The given characters, one after the other.
    Str(Seq<char>),
    /// One character between the two given ones, both included.
    CharRange(char, char),
    /// One character out of the given ones.
    CharSet(Seq<char>),
    /// One character, whatever it is.
    Any,
    /// The begin of the subject.
    AnchorBegin,
    /// The end of the subject.
    AnchorEnd,
}

impl MatcherKind {
    /// Whether the matcher accepts the subject at the position `pos`.
    pub open spec fn accepts(self, subject: Seq<char>, pos: nat) -> bool {
        match self {
            MatcherKind::Char(c) => pos < subject.len() && subject[pos as int] == c,
            MatcherKind::Str(s) => pos + s.len() <= subject.len() && subject.subrange(
                pos as int,
                (pos + s.len()) as int,
            ) == s,
            MatcherKind::CharRange(lo, hi) => pos < subject.len() && lo <= subject[pos as int]
                <= hi,
            MatcherKind::CharSet(set) => pos < subject.len() && set.contains(subject[pos as int]),
            MatcherKind::Any => true,
            MatcherKind::AnchorBegin => pos == 0,
            MatcherKind::AnchorEnd => pos == subject.len(),
        }
    }

    /// How many characters the matcher consumes. It says so whether it accepts or not.
    pub open spec fn width(self) -> nat {
        match self {
            MatcherKind::Char(_) => 1,
            MatcherKind::Str(s) => s.len(),
            MatcherKind::CharRange(_, _) => 1,
            MatcherKind::CharSet(_) => 1,
            MatcherKind::Any => 1,
            MatcherKind::AnchorBegin => 0,
            MatcherKind::AnchorEnd => 0,
        }
    }

    /// The name of the matcher and what it looks for, as shown in a rendered graph.
    pub open spec fn label(self) -> Seq<char> {
        match self {
            MatcherKind::Char(c) => "CharMatcher("@ + char_debug(c) + ")"@,
            MatcherKind::Str(s) => "StringMatcher("@ + debug_list(s) + ")"@,
            MatcherKind::CharRange(lo, hi) => "CharRangeMatcher("@ + char_debug(lo) + ", "@
                + char_debug(hi) + ")"@,
            MatcherKind::CharSet(set) => "CharSetMatcher("@ + debug_list(set) + ")"@,
            MatcherKind::Any => "AnyMatcher"@,
            MatcherKind::AnchorBegin => "Begin"@,
            MatcherKind::AnchorEnd => "End"@,
        }
    }
}

/// A Matcher matches parts of a Matchee (where a Matchee is a string to be matched). While
/// matching, a matcher may consume zero or more characters of the string.
pub trait Matcher {
    /// What this matcher looks for.
    spec fn kind(&self) -> MatcherKind;

    /// Returns whether the Matchee matches, and how many characters the matcher consumes. For
    /// example, a character matcher consumes one character, whereas an anchor doesn't consume
    /// any.
    fn matches(&self, m: &Matchee) -> (r: (bool, usize))
        ensures
            r.0 == self.kind().accepts(m@.src, m@.ix),
            r.1 == self.kind().width(),
    ;

    /// The name of the matcher and what it looks for.
    fn describe(&self) -> (s: String)
        ensures
            s@ == self.kind().label(),
    ;
}

#[derive(Debug)]
pub struct CharMatcher(pub char);

impl Matcher for CharMatcher {
    open spec fn kind(&self) -> MatcherKind {
        MatcherKind::Char(self.0)
    }

    fn matches(&self, m: &Matchee) -> (r: (bool, usize)) {
        (m.pos() < m.len() && m.current() == self.0, 1)
    }

    fn describe(&self) -> (s: String) {
        let mut out: Vec<char> = Vec::new();
        append_str(&mut out, "CharMatcher(");
        append_debug_char(&mut out, self.0);
        append_str(&mut out, ")");
        string_of(out.as_slice())
    }
}

#[derive(Debug)]
pub struct StringMatcher(pub Vec<char>);

impl StringMatcher {
    pub fn new(s: &str) -> (r: StringMatcher)
        ensures
            r.0@ == s@,
    {
        StringMatcher(chars_of(s))
    }
}

impl Matcher for StringMatcher {
    open spec fn kind(&self) -> MatcherKind {
        MatcherKind::Str(self.0@)
    }

    fn matches(&self, m: &Matchee) -> (r: (bool, usize)) {
        let n = self.0.len();
        if n <= m.len() && m.pos() <= m.len() - n {
            let mut i: usize = 0;
            let start = m.pos();
            while i < n
                invariant
                    i <= n,
                    n == self.0@.len(),
                    start == m@.ix,
                    start + n <= m@.src.len() <= usize::MAX,
                    m@.src.subrange(start as int, start + i) == self.0@.take(i as int),
                decreases n - i,
            {
                if char_at(m.src.as_slice(), start + i) != char_at(self.0.as_slice(), i) {
                    assert(m@.src.subrange(start as int, start + n)[i as int] != self.0@[i as int]);
                    return (false, n);
                }
                i += 1;
                assert(m@.src.subrange(start as int, start + i) =~= self.0@.take(i as int)) by {
                    let a = m@.src.subrange(start as int, start + i);
                    let b = m@.src.subrange(start as int, start + i - 1);
                    assert forall|j: int| 0 <= j < i implies a[j] == self.0@.take(i as int)[j] by {
                        if j < i - 1 {
                            assert(b[j] == self.0@.take(i - 1)[j]);
                        }
                    }
                }
            }
            assert(self.0@.take(n as int) =~= self.0@);
            (true, n)
        } else {
            (false, n)
        }
    }

    fn describe(&self) -> (s: String) {
        let mut out: Vec<char> = Vec::new();
        append_str(&mut out, "StringMatcher(");
        append_debug_list(&mut out, self.0.as_slice());
        append_str(&mut out, ")");
        string_of(out.as_slice())
    }
}

#[derive(Debug)]
pub struct CharRangeMatcher(pub char, pub char);

impl Matcher for CharRangeMatcher {
    open spec fn kind(&self) -> MatcherKind {
        MatcherKind::CharRange(self.0, self.1)
    }

    fn matches(&self, m: &Matchee) -> (r: (bool, usize)) {
        (m.pos() < m.len() && m.current() >= self.0 && m.current() <= self.1, 1)
    }

    fn describe(&self) -> (s: String) {
        let mut out: Vec<char> = Vec::new();
        append_str(&mut out, "CharRangeMatcher(");
        append_debug_char(&mut out, self.0);
        append_str(&mut out, ", ");
        append_debug_char(&mut out, self.1);
        append_str(&mut out, ")");
        string_of(out.as_slice())
    }
}

#[derive(Debug)]
pub struct CharSetMatcher(pub Vec<char>);

impl Matcher for CharSetMatcher {
    open spec fn kind(&self) -> MatcherKind {
        MatcherKind::CharSet(self.0@)
    }

    fn matches(&self, m: &Matchee) -> (r: (bool, usize)) {
        if m.pos() >= m.len() {
            return (false, 1);
        }
        let c = m.current();
        let mut i: usize = 0;
        while i < self.0.len()
            invariant
                i <= self.0@.len(),
                m@.ix < m@.src.len(),
                c == m@.src[m@.ix as int],
                forall|j: int| 0 <= j < i ==> self.0@[j] != c,
            decreases self.0@.len() - i,
        {
            if char_at(self.0.as_slice(), i) == c {
                assert(self.0@[i as int] == c);
                assert(self.0@.contains(c));
                return (true, 1);
            }
            i += 1;
        }
        (false, 1)
    }

    fn describe(&self) -> (s: String) {
        let mut out: Vec<char> = Vec::new();
        append_str(&mut out, "CharSetMatcher(");
        append_debug_list(&mut out, self.0.as_slice());
        append_str(&mut out, ")");
        string_of(out.as_slice())
    }
}

/// AnyMatcher matches any character.
#[derive(Debug)]
pub struct AnyMatcher;

impl Matcher for AnyMatcher {
    open spec fn kind(&self) -> MatcherKind {
        MatcherKind::Any
    }

    fn matches(&self, _m: &Matchee) -> (r: (bool, usize)) {
        (true, 1)
    }

    fn describe(&self) -> (s: String) {
        "AnyMatcher".to_owned()
    }
}

/// AnchorMatcher matches the beginning or end of a string. It doesn't consume a character.
#[derive(Debug)]
pub enum AnchorMatcher {
    Begin,
    End,
}

impl Matcher for AnchorMatcher {
    open spec fn kind(&self) -> MatcherKind {
        match self {
            AnchorMatcher::Begin => MatcherKind::AnchorBegin,
            AnchorMatcher::End => MatcherKind::AnchorEnd,
        }
    }

    fn matches(&self, m: &Matchee) -> (r: (bool, usize)) {
        match self {
            AnchorMatcher::Begin => (m.pos() == 0, 0),
            AnchorMatcher::End => (m.finished(), 0),
        }
    }

    fn describe(&self) -> (s: String) {
        match self {
            AnchorMatcher::Begin => "Begin".to_owned(),
            AnchorMatcher::End => "End".to_owned(),
        }
    }
}

/// One of the matchers of this module, as a state of a graph holds it.
#[derive(Debug)]
pub enum WrappedMatcher {
    Char(CharMatcher),
    Str(StringMatcher),
    CharRange(CharRangeMatcher),
    CharSet(CharSetMatcher),
    Any(AnyMatcher),
    Anchor(AnchorMatcher),
}

impl Matcher for WrappedMatcher {
    open spec fn kind(&self) -> MatcherKind {
        match self {
            WrappedMatcher::Char(m) => m.kind(),
            WrappedMatcher::Str(m) => m.kind(),
            WrappedMatcher::CharRange(m) => m.kind(),
            WrappedMatcher::CharSet(m) => m.kind(),
            WrappedMatcher::Any(m) => m.kind(),
            WrappedMatcher::Anchor(m) => m.kind(),
        }
    }

    fn matches(&self, me: &Matchee) -> (r: (bool, usize)) {
        match self {
            WrappedMatcher::Char(m) => m.matches(me),
            WrappedMatcher::Str(m) => m.matches(me),
            WrappedMatcher::CharRange(m) => m.matches(me),
            WrappedMatcher::CharSet(m) => m.matches(me),
            WrappedMatcher::Any(m) => m.matches(me),
            WrappedMatcher::Anchor(m) => m.matches(me),
        }
    }

    fn describe(&self) -> (s: String) {
        match self {
            WrappedMatcher::Char(m) => m.describe(),
            WrappedMatcher::Str(m) => m.describe(),
            WrappedMatcher::CharRange(m) => m.describe(),
            WrappedMatcher::CharSet(m) => m.describe(),
            WrappedMatcher::Any(m) => m.describe(),
            WrappedMatcher::Anchor(m) => m.describe(),
        }
    }
}

/// Wraps a matcher for its place in a state of a graph, where it can be shared.
pub fn wrap_matcher(m: WrappedMatcher) -> (r: Option<Rc<WrappedMatcher>>)
    ensures
        r is Some,
        *r->0 == m,
{
    Some(Rc::new(m))
}

} // verus!
