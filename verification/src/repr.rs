//! The representation of parsed regular expressions: a tree of patterns, together with the
//! mathematical model of that tree in which every contract of this crate is stated.

use vstd::prelude::*;

verus! {

/// `AnchorLocation` encodes the `^` and `$` anchors.
#[derive(Clone, Copy, Debug, PartialEq, Eq)]
pub enum AnchorLocation {
    Begin,
    End,
}

/// A pattern is a sequence or a choice of patterns, a repeated pattern, a stored submatch, or a
/// leaf that looks at the subject: a character, a string, a range, a set, or an anchor.
#[derive(Debug, PartialEq)]
pub enum Pattern {
    /// Patterns following each other.
    Concat(Vec<Pattern>),
    /// A repeated sub-pattern.
    Repeated(Box<Repetition>),
    /// A stored submatch.
    Submatch(Box<Pattern>),
    /// An alternation between patterns (a|bb|ccc).
    Alternate(Vec<Pattern>),
    /// A single character.
    Char(char),
    /// Any character (.).
    Any,
    /// A string.
    Str(String),
    /// A character range, both ends included.
    CharRange(char, char),
    /// A set of characters.
    CharSet(Vec<char>),
    /// A position anchor.
    Anchor(AnchorLocation),
}

/// The ways in which a pattern can be repeated.
#[derive(Debug, PartialEq)]
pub enum Repetition {
    /// /P?/
    ZeroOrOnce(Pattern),
    /// /P*/
    ZeroOrMore(Pattern),
    /// /P+/
    OnceOrMore(Pattern),
    /// /P{min, (max)}/
    Specific(Pattern, u32, Option<u32>),
}

/// The mathematical value of a `Pattern`: the same tree over sequences and unbounded numbers.
pub enum PatternView {
    Concat(Seq<PatternView>),
    Repeated(Box<RepetitionView>),
    Submatch(Box<PatternView>),
    Alternate(Seq<PatternView>),
    Char(char),
    Any,
    Str(Seq<char>),
    CharRange(char, char),
    CharSet(Seq<char>),
    Anchor(AnchorLocation),
}

/// The mathematical value of a `Repetition`.
pub enum RepetitionView {
    ZeroOrOnce(PatternView),
    ZeroOrMore(PatternView),
    OnceOrMore(PatternView),
    Specific(PatternView, nat, Option<nat>),
}

/// The values of a sequence of patterns, element by element.
pub open spec fn views(ps: Seq<Pattern>) -> Seq<PatternView> {
    Seq::new(ps.len(), |i: int| ps[i].model())
}

impl Pattern {
    /// The value of this pattern; `p@` is the same.
    pub open spec fn model(&self) -> PatternView
        decreases self,
    {
        match self {
            Pattern::Concat(ps) => PatternView::Concat(
                Seq::new(
                    ps@.len(),
                    |i: int|
                        if 0 <= i < ps@.len() {
                            ps@[i].model()
                        } else {
                            PatternView::Any
                        },
                ),
            ),
            Pattern::Alternate(ps) => PatternView::Alternate(
                Seq::new(
                    ps@.len(),
                    |i: int|
                        if 0 <= i < ps@.len() {
                            ps@[i].model()
                        } else {
                            PatternView::Any
                        },
                ),
            ),
            Pattern::Submatch(p) => PatternView::Submatch(Box::new(p.model())),
            Pattern::Repeated(r) => PatternView::Repeated(Box::new(r.model())),
            Pattern::Char(c) => PatternView::Char(*c),
            Pattern::Any => PatternView::Any,
            Pattern::Str(s) => PatternView::Str(s@),
            Pattern::CharRange(lo, hi) => PatternView::CharRange(*lo, *hi),
            Pattern::CharSet(set) => PatternView::CharSet(set@),
            Pattern::Anchor(loc) => PatternView::Anchor(*loc),
        }
    }

    /// A sequence of children has as its value the values of the children.
    pub proof fn lemma_concat_view(ps: Vec<Pattern>)
        ensures
            Pattern::Concat(ps)@ == PatternView::Concat(views(ps@)),
            Pattern::Alternate(ps)@ == PatternView::Alternate(views(ps@)),
    {
        assert(Pattern::Concat(ps).model()->Concat_0 =~= views(ps@));
        assert(Pattern::Alternate(ps).model()->Alternate_0 =~= views(ps@));
    }
}

impl Repetition {
    /// The value of this repetition; `r@` is the same.
    pub open spec fn model(&self) -> RepetitionView
        decreases self,
    {
        match self {
            Repetition::ZeroOrOnce(p) => RepetitionView::ZeroOrOnce(p.model()),
            Repetition::ZeroOrMore(p) => RepetitionView::ZeroOrMore(p.model()),
            Repetition::OnceOrMore(p) => RepetitionView::OnceOrMore(p.model()),
            Repetition::Specific(p, min, max) => RepetitionView::Specific(
                p.model(),
                *min as nat,
                match max {
                    Some(m) => Some(*m as nat),
                    None => None,
                },
            ),
        }
    }
}

impl View for Pattern {
    type V = PatternView;

    open spec fn view(&self) -> PatternView {
        self.model()
    }
}

impl View for Repetition {
    type V = RepetitionView;

    open spec fn view(&self) -> RepetitionView {
        self.model()
    }
}

impl Clone for Pattern {
    /// A deep copy: the copy has the same value.
    fn clone(&self) -> (r: Self)
        ensures
            r@ == self@,
        decreases self,
    {
        match self {
            Pattern::Concat(ps) => {
                let mut out: Vec<Pattern> = Vec::new();
                let mut i: usize = 0;
                while i < ps.len()
                    invariant
                        i <= ps.len(),
                        self is Concat,
                        self->Concat_0 == *ps,
                        out@.len() == i,
                        forall|j: int| 0 <= j < i ==> out@[j]@ == ps@[j]@,
                    decreases ps.len() - i,
                {
                    out.push(ps[i].clone());
                    i += 1;
                }
                let r = Pattern::Concat(out);
                assert(r@->Concat_0 =~= self@->Concat_0);
                r
            },
            Pattern::Alternate(ps) => {
                let mut out: Vec<Pattern> = Vec::new();
                let mut i: usize = 0;
                while i < ps.len()
                    invariant
                        i <= ps.len(),
                        self is Alternate,
                        self->Alternate_0 == *ps,
                        out@.len() == i,
                        forall|j: int| 0 <= j < i ==> out@[j]@ == ps@[j]@,
                    decreases ps.len() - i,
                {
                    out.push(ps[i].clone());
                    i += 1;
                }
                let r = Pattern::Alternate(out);
                assert(r@->Alternate_0 =~= self@->Alternate_0);
                r
            },
            Pattern::Submatch(p) => Pattern::Submatch(Box::new((&**p).clone())),
            Pattern::Repeated(r) => Pattern::Repeated(Box::new((&**r).clone())),
            Pattern::Char(c) => Pattern::Char(*c),
            Pattern::Any => Pattern::Any,
            Pattern::Str(s) => Pattern::Str(s.clone()),
            Pattern::CharRange(lo, hi) => Pattern::CharRange(*lo, *hi),
            Pattern::CharSet(set) => Pattern::CharSet(set.clone()),
            Pattern::Anchor(loc) => Pattern::Anchor(*loc),
        }
    }
}

impl Clone for Repetition {
    /// A deep copy: the copy has the same value.
    fn clone(&self) -> (r: Self)
        ensures
            r@ == self@,
        decreases self,
    {
        match self {
            Repetition::ZeroOrOnce(p) => Repetition::ZeroOrOnce(p.clone()),
            Repetition::ZeroOrMore(p) => Repetition::ZeroOrMore(p.clone()),
            Repetition::OnceOrMore(p) => Repetition::OnceOrMore(p.clone()),
            Repetition::Specific(p, min, max) => Repetition::Specific(p.clone(), *min, *max),
        }
    }
}

} // verus!
