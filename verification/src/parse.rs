//! Parsing a regular expression into its pattern tree.
//!
//! The grammar is read from left to right with a stack of the patterns seen so far. Every
//! function here has a mathematical counterpart on sequences of characters, and the executable
//! parser is proved to compute exactly that.

use crate::compile::solid;
use crate::repr::{views, AnchorLocation, Pattern, PatternView, Repetition, RepetitionView};
use crate::text::{
    append_chars, append_debug_list, append_decimal, append_str, char_at, chars_of, debug_list,
    decimal,
    number_value, parse_number, string_of, NumberError,
};
use vstd::prelude::*;

verus! {

/// Why a regular expression was rejected, and where.
#[derive(Clone, Debug, PartialEq, Eq)]
pub struct ParseError {
    /// What is wrong.
    pub message: String,
    /// The index of the character, counted in characters from the start of the whole regular
    /// expression, at which it went wrong.
    pub position: usize,
}

/// The mathematical value of a `ParseError`.
pub struct ParseErrorView {
    pub message: Seq<char>,
    pub position: nat,
}

impl View for ParseError {
    type V = ParseErrorView;

    open spec fn view(&self) -> ParseErrorView {
        ParseErrorView { message: self.message@, position: self.position as nat }
    }
}

impl ParseErrorView {
    /// The error in one line: the message, then ` at :` and the position in decimal.
    pub open spec fn render(self) -> Seq<char> {
        self.message + " at :"@ + decimal(self.position)
    }
}

impl ParseError {
    /// The error in one line: the message, then ` at :` and the position in decimal.
    pub fn to_string(&self) -> (s: String)
        ensures
            s@ == self@.render(),
    {
        let mut out: Vec<char> = Vec::new();
        append_str(&mut out, self.message.as_str());
        append_str(&mut out, " at :");
        append_decimal(&mut out, self.position);
        string_of(out.as_slice())
    }
}

/// An error value of the model.
pub open spec fn error_at(message: Seq<char>, position: nat) -> ParseErrorView {
    ParseErrorView { message, position }
}

/// ParseStack contains already parsed elements of a regular expression.
pub struct ParseStack {
    pub s: Vec<Pattern>,
}

impl View for ParseStack {
    type V = Seq<PatternView>;

    open spec fn view(&self) -> Seq<PatternView> {
        views(self.s@)
    }
}

/// The pattern that a stack of parsed elements stands for: its only element, or the sequence of
/// its elements. An empty stack stands for nothing, which is an error at the given position.
pub open spec fn finish(stack: Seq<PatternView>, position: nat) -> Result<
    PatternView,
    ParseErrorView,
> {
    if stack.len() == 0 {
        Err(error_at("empty regex"@, position))
    } else if stack.len() == 1 {
        Ok(stack[0])
    } else {
        Ok(PatternView::Concat(stack))
    }
}

impl ParseStack {
    pub fn new() -> (r: ParseStack)
        ensures
            r@ == Seq::<PatternView>::empty(),
    {
        let r = ParseStack { s: Vec::with_capacity(4) };
        assert(r@ =~= Seq::<PatternView>::empty());
        r
    }

    pub fn push(&mut self, p: Pattern)
        ensures
            final(self)@ == old(self)@.push(p@),
    {
        self.s.push(p);
        assert(self@ =~= old(self)@.push(p@));
    }

    pub fn pop(&mut self) -> (r: Option<Pattern>)
        ensures
            match r {
                Some(p) => old(self)@.len() > 0 && p@ == old(self)@.last() && final(self)@ == old(
                    self,
                )@.drop_last(),
                None => old(self)@.len() == 0 && final(self)@ == old(self)@,
            },
    {
        let r = self.s.pop();
        proof {
            if r is Some {
                assert(self@ =~= old(self)@.drop_last());
            }
        }
        r
    }

    pub fn empty(&self) -> (r: bool)
        ensures
            r == (self@.len() == 0),
    {
        self.s.is_empty()
    }

    /// The pattern that the stack stands for. The stack must hold something.
    pub fn to_retree(self) -> (r: Pattern)
        requires
            self@.len() > 0,
        ensures
            forall|position: nat| finish(self@, position) == Ok::<PatternView, ParseErrorView>(r@),
            all_solid(self@) ==> solid(r@),
    {
        proof {
            if all_solid(self@) {
                lemma_finish_solid(self@, 0);
            }
        }
        let mut this = self;
        if this.s.len() > 1 {
            proof {
                Pattern::lemma_concat_view(this.s);
            }
            Pattern::Concat(this.s)
        } else {
            let r = this.s.pop();
            r.unwrap()
        }
    }
}

/// State of the parser: the part of the regular expression that a parser function is concerned
/// with, and where that part begins in the whole, so that errors can name a position.
#[derive(Clone, Copy)]
pub struct ParseState<'a> {
    /// The characters to parse. This may be a part of the whole regular expression.
    pub src: &'a [char],
    /// The position of the first of them within the whole.
    pub pos: usize,
    /// The length of the whole regular expression.
    pub whole: usize,
}

impl<'a> ParseState<'a> {
    /// The part lies within the whole.
    pub open spec fn wf(&self) -> bool {
        self.pos + self.src@.len() <= self.whole
    }

    /// new returns a new ParseState operating on the specified input.
    pub fn new(s: &'a [char]) -> (r: ParseState<'a>)
        ensures
            r.src@ == s@,
            r.pos == 0,
            r.whole == s@.len(),
            r.wf(),
    {
        ParseState { src: s, pos: 0, whole: s.len() }
    }

    /// from returns the part that begins at index `from` of this one.
    pub fn from(&self, from: usize) -> (r: ParseState<'a>)
        requires
            self.wf(),
            from <= self.src@.len(),
        ensures
            r.src@ == self.src@.skip(from as int),
            r.pos == self.pos + from,
            r.whole == self.whole,
            r.wf(),
    {
        self.sub(from, self.len())
    }

    /// pos returns the position within the whole regular expression.
    pub fn pos(&self) -> (r: usize)
        ensures
            r == self.pos,
    {
        self.pos
    }

    /// sub returns the part between the indices `from` (included) and `to` (excluded).
    pub fn sub(&self, from: usize, to: usize) -> (r: ParseState<'a>)
        requires
            self.wf(),
            from <= to <= self.src@.len(),
        ensures
            r.src@ == self.src@.subrange(from as int, to as int),
            r.pos == self.pos + from,
            r.whole == self.whole,
            r.wf(),
    {
        ParseState { src: &self.src[from..to], pos: self.pos + from, whole: self.whole }
    }

    /// len returns how many characters this part contains.
    pub fn len(&self) -> (r: usize)
        ensures
            r == self.src@.len(),
    {
        self.src.len()
    }

    /// The character at index `i` of this part.
    pub fn index(&self, i: usize) -> (c: char)
        requires
            i < self.src@.len(),
        ensures
            c == self.src@[i as int],
    {
        self.src[i]
    }

    /// err returns an error with the given message, at index `i` of this part.
    pub fn err<T>(&self, s: &str, i: usize) -> (r: Result<T, ParseError>)
        requires
            self.wf(),
            i <= self.src@.len(),
        ensures
            r is Err,
            r->Err_0@ == error_at(s@, (self.pos + i) as nat),
    {
        Err(ParseError { message: s.to_owned(), position: self.pos + i })
    }
}

pub const ROUND_PARENS: (char, char) = ('(', ')');

pub const SQUARE_BRACKETS: (char, char) = ('[', ']');

pub const CURLY_BRACKETS: (char, char) = ('{', '}');

/// How many brackets are open after the character at index `i`: the openers among the
/// characters up to and including it, less the closers.
pub open spec fn depth_at(s: Seq<char>, parens: (char, char), i: int) -> int
    decreases i + 1,
{
    if i < 0 || i >= s.len() {
        0
    } else {
        depth_at(s, parens, i - 1) + if s[i] == parens.0 {
            1int
        } else if s[i] == parens.1 {
            -1int
        } else {
            0int
        }
    }
}

/// `end` is the index of the bracket that closes the one at the start of `s`: the first index
/// after which no bracket of this family is open.
pub open spec fn is_closing(s: Seq<char>, parens: (char, char), end: int) -> bool {
    &&& 0 <= end < s.len()
    &&& s[0] == parens.0
    &&& depth_at(s, parens, end) == 0
    &&& forall|j: int| 0 <= j < end ==> depth_at(s, parens, j) != 0
}

/// The index of the bracket that closes the one at the start of `s`, if there is one.
pub open spec fn closing(s: Seq<char>, parens: (char, char)) -> Option<int> {
    if exists|end: int| is_closing(s, parens, end) {
        Some(choose|end: int| is_closing(s, parens, end))
    } else {
        None
    }
}

/// At most one index closes the opening bracket.
pub proof fn lemma_closing_unique(s: Seq<char>, parens: (char, char), end: int)
    requires
        is_closing(s, parens, end),
    ensures
        closing(s, parens) == Some(end),
{
    let other = choose|e: int| is_closing(s, parens, e);
    if other < end {
        assert(depth_at(s, parens, other) != 0);
    } else if end < other {
        assert(depth_at(s, parens, end) != 0);
    }
}

/// find_closing_paren returns the index of the parenthesis closing the opening parenthesis at
/// the beginning of the state's characters.
pub fn find_closing_paren<'a>(s: ParseState<'a>, parens: (char, char)) -> (r: Option<usize>)
    ensures
        match r {
            Some(end) => closing(s.src@, parens) == Some(end as int) && is_closing(
                s.src@,
                parens,
                end as int,
            ),
            None => closing(s.src@, parens) is None,
        },
{
    if s.len() == 0 || s.index(0) != parens.0 {
        return None;
    }
    let mut count: usize = 0;
    let mut i: usize = 0;
    while i < s.len()
        invariant
            i <= s.src@.len(),
            s.src@.len() > 0,
            s.src@[0] == parens.0,
            count == depth_at(s.src@, parens, i - 1),
            count <= i,
            i > 0 ==> count > 0,
            forall|j: int| 0 <= j < i ==> depth_at(s.src@, parens, j) != 0,
        decreases s.src@.len() - i,
    {
        if s.index(i) == parens.0 {
            count += 1;
        } else if s.index(i) == parens.1 {
            count -= 1;
        }
        if count == 0 {
            proof {
                lemma_closing_unique(s.src@, parens, i as int);
            }
            return Some(i);
        }
        i += 1;
    }
    None
}

/// split_in_parens returns two new ParseStates; the first one containing the contents of the
/// parenthesized clause starting at the first character, the second one containing the rest.
pub fn split_in_parens<'a>(s: ParseState<'a>, parens: (char, char)) -> (r: Option<
    (ParseState<'a>, ParseState<'a>),
>)
    requires
        s.wf(),
    ensures
        match r {
            Some((inner, rest)) => {
                &&& closing(s.src@, parens) is Some
                &&& is_closing(s.src@, parens, closing(s.src@, parens)->0)
                &&& inner.src@ == s.src@.subrange(1, closing(s.src@, parens)->0)
                &&& inner.pos == s.pos + 1
                &&& inner.whole == s.whole
                &&& inner.wf()
                &&& rest.src@ == s.src@.skip(closing(s.src@, parens)->0 + 1)
                &&& rest.pos == s.pos + closing(s.src@, parens)->0 + 1
                &&& rest.whole == s.whole
                &&& rest.wf()
            },
            None => closing(s.src@, parens) is None,
        },
{
    if let Some(end) = find_closing_paren(s, parens) {
        assert(end >= 1) by {
            assert(depth_at(s.src@, parens, -1) == 0);
            assert(depth_at(s.src@, parens, 0) == 1);
        }
        Some((s.sub(1, end), s.from(end + 1)))
    } else {
        None
    }
}

/// The ranges `X-Y` that a character class names, in order.
pub open spec fn class_ranges(cs: Seq<char>) -> Seq<PatternView>
    decreases cs.len(),
{
    if cs.len() >= 3 && cs[1] == '-' {
        seq![PatternView::CharRange(cs[0], cs[2])] + class_ranges(cs.skip(3))
    } else if cs.len() > 0 {
        class_ranges(cs.skip(1))
    } else {
        Seq::empty()
    }
}

/// The characters that a character class names one by one, in order. A dash that is not in
/// the middle of a range is such a character.
pub open spec fn class_chars(cs: Seq<char>) -> Seq<char>
    decreases cs.len(),
{
    if cs.len() >= 3 && cs[1] == '-' {
        class_chars(cs.skip(3))
    } else if cs.len() > 0 {
        seq![cs[0]] + class_chars(cs.skip(1))
    } else {
        Seq::empty()
    }
}

/// The pieces of a character class: its ranges, then its loose characters as one set, or as one
/// character if there is only one.
pub open spec fn class_pieces(cs: Seq<char>) -> Seq<PatternView> {
    let ranges = class_ranges(cs);
    let chars = class_chars(cs);
    if chars.len() == 1 {
        ranges.push(PatternView::Char(chars[0]))
    } else if chars.len() > 0 {
        ranges.push(PatternView::CharSet(chars))
    } else {
        ranges
    }
}

/// The pattern of a character class with the content `cs`: its only piece, or the choice between
/// its pieces.
pub open spec fn class_pattern(cs: Seq<char>) -> PatternView {
    let pieces = class_pieces(cs);
    if pieces.len() == 1 {
        pieces[0]
    } else {
        PatternView::Alternate(pieces)
    }
}

/// parse_char_set parses the character set at the start of the input state.
/// Valid states are [a], [ab], [a-z], [-a-z], [a-z-] and [a-fh-kl].
pub fn parse_char_set<'a>(s: ParseState<'a>) -> (r: Result<(Pattern, ParseState<'a>), ParseError>)
    requires
        s.wf(),
    ensures
        match closing(s.src@, SQUARE_BRACKETS) {
            Some(end) => {
                &&& r is Ok
                &&& is_closing(s.src@, SQUARE_BRACKETS, end)
                &&& r->Ok_0.0@ == class_pattern(s.src@.subrange(1, end))
                &&& solid(r->Ok_0.0@)
                &&& r->Ok_0.1.src@ == s.src@.skip(end + 1)
                &&& r->Ok_0.1.pos == s.pos + end + 1
                &&& r->Ok_0.1.whole == s.whole
                &&& r->Ok_0.1.wf()
            },
            None => {
                &&& r is Err
                &&& r->Err_0@ == error_at("unmatched ["@, (s.pos + s.src@.len()) as nat)
            },
        },
{
    if let Some((cs, rest)) = split_in_parens(s, SQUARE_BRACKETS) {
        let mut chars: Vec<char> = Vec::new();
        let mut ranges: Vec<Pattern> = Vec::new();
        let mut st = cs;
        assert(views(ranges@) + class_ranges(st.src@) =~= class_ranges(cs.src@));
        assert(chars@ + class_chars(st.src@) =~= class_chars(cs.src@));
        loop
            invariant
                st.wf(),
                all_solid(views(ranges@)),
                class_ranges(cs.src@) == views(ranges@) + class_ranges(st.src@),
                class_chars(cs.src@) == chars@ + class_chars(st.src@),
            ensures
                st.src@.len() == 0,
            decreases st.src@.len(),
        {
            // Try to match a range "a-z" by looking for the dash; if no dash, add the character
            // to the set and advance.
            if st.len() >= 3 && st.index(1) == '-' {
                let ghost before = views(ranges@);
                let range = Pattern::CharRange(st.index(0), st.index(2));
                proof {
                    lemma_push_solid(before, range@);
                }
                ranges.push(range);
                proof {
                    assert(views(ranges@) =~= before.push(range@));
                    assert(views(ranges@) =~= before.push(
                        PatternView::CharRange(st.src@[0], st.src@[2]),
                    ));
                    assert(views(ranges@) + class_ranges(st.src@.skip(3)) =~= before
                        + class_ranges(st.src@));
                }
                st = st.from(3);
            } else if st.len() > 0 {
                let ghost before = chars@;
                chars.push(st.index(0));
                proof {
                    assert(chars@ + class_chars(st.src@.skip(1)) =~= before + class_chars(
                        st.src@,
                    ));
                }
                st = st.from(1);
            } else {
                break ;
            }
        }
        proof {
            assert(class_ranges(cs.src@) =~= views(ranges@));
            assert(class_chars(cs.src@) =~= chars@);
        }
        let ghost before = views(ranges@);
        if chars.len() == 1 {
            let c = char_at(chars.as_slice(), 0);
            ranges.push(Pattern::Char(c));
            assert(views(ranges@) =~= before.push(PatternView::Char(c)));
            proof {
                lemma_push_solid(before, PatternView::Char(c));
            }
        } else if !chars.is_empty() {
            let ghost set = chars@;
            ranges.push(Pattern::CharSet(chars));
            assert(views(ranges@) =~= before.push(PatternView::CharSet(set)));
            proof {
                lemma_push_solid(before, PatternView::CharSet(set));
            }
        }
        assert(views(ranges@) == class_pieces(cs.src@));
        if ranges.len() == 1 {
            assert(solid(views(ranges@)[0]));
            let only = ranges.pop();
            Ok((only.unwrap(), rest))
        } else {
            proof {
                Pattern::lemma_concat_view(ranges);
                let pieces = views(ranges@);
                assert forall|i: int| 0 <= i < pieces.len() implies solid(#[trigger] pieces[i]) by {}
                assert(solid(PatternView::Alternate(pieces)));
            }
            let pat = Pattern::Alternate(ranges);
            Ok((pat, rest))
        }
    } else {
        s.err("unmatched [", s.len())
    }
}

/// The index of the first comma of `s` at or after the index `from`, or the length of `s` if
/// there is none.
pub open spec fn comma_pos(s: Seq<char>, from: int) -> int
    decreases s.len() - from,
{
    if from >= s.len() {
        s.len() as int
    } else if s[from] == ',' {
        from
    } else {
        comma_pos(s, from + 1)
    }
}

fn find_comma(s: &[char], from: usize) -> (r: usize)
    requires
        from <= s@.len(),
    ensures
        r == comma_pos(s@, from as int),
        from <= r <= s@.len(),
        r < s@.len() ==> s@[r as int] == ',',
        forall|j: int| from <= j < r ==> s@[j] != ',',
{
    let mut i: usize = from;
    while i < s.len() && char_at(s, i) != ','
        invariant
            from <= i <= s@.len(),
            comma_pos(s@, from as int) == comma_pos(s@, i as int),
            forall|j: int| from <= j < i ==> s@[j] != ',',
        decreases s@.len() - i,
    {
        i += 1;
    }
    i
}

/// What is said of a bound that is no 32-bit number.
pub open spec fn number_message(e: NumberError) -> Seq<char> {
    match e {
        NumberError::Empty => "cannot parse integer from empty string"@,
        NumberError::InvalidDigit => "invalid digit found in string"@,
        NumberError::TooLarge => "number too large to fit in target type"@,
    }
}

fn number_error<T>(e: NumberError, position: usize) -> (r: Result<T, ParseError>)
    ensures
        r is Err,
        r->Err_0@ == error_at(number_message(e), position as nat),
{
    let message = match e {
        NumberError::Empty => "cannot parse integer from empty string",
        NumberError::InvalidDigit => "invalid digit found in string",
        NumberError::TooLarge => "number too large to fit in target type",
    };
    Err(ParseError { message: message.to_owned(), position })
}

/// What is said of counts that cannot be read or that contradict each other.
pub open spec fn invalid_repetition(rep: Seq<char>) -> Seq<char> {
    "invalid repetition '"@ + rep + "'"@
}

fn repetition_error<'a, T>(rep: ParseState<'a>) -> (r: Result<T, ParseError>)
    ensures
        r is Err,
        r->Err_0@ == error_at(invalid_repetition(rep.src@), rep.pos as nat),
{
    let mut message: Vec<char> = Vec::new();
    append_str(&mut message, "invalid repetition '");
    append_chars(&mut message, rep.src);
    append_str(&mut message, "'");
    assert(message@ =~= invalid_repetition(rep.src@));
    Err(ParseError { message: string_of(message.as_slice()), position: rep.pos })
}

/// The pattern `p` repeated as the content `rep` of a pair of curly braces says, where `rep`
/// begins at `position`:
/// `n` stands for `n` times and then any number of times, `n,m` for `n` to `m` times, `,m` for
/// at most `m` times, and `n,` for exactly `n` times followed by any number of times. In `n,m`
/// the second count must not be less than the first. What follows a second comma is not looked
/// at.
pub open spec fn repetition(rep: Seq<char>, position: nat, p: PatternView) -> Result<
    PatternView,
    ParseErrorView,
> {
    let comma = comma_pos(rep, 0);
    if comma == rep.len() {
        match number_value(rep) {
            Ok(n) => Ok(
                PatternView::Repeated(Box::new(RepetitionView::Specific(p, n, None::<nat>))),
            ),
            Err(_) => Err(error_at(invalid_repetition(rep), position)),
        }
    } else {
        let low = rep.subrange(0, comma);
        let high = rep.subrange(comma + 1, comma_pos(rep, comma + 1));
        let high_at = (position + comma + 1) as nat;
        if low.len() > 0 && high.len() > 0 {
            match number_value(low) {
                Err(e) => Err(error_at(number_message(e), position)),
                Ok(min) => match number_value(high) {
                    Err(e) => Err(error_at(number_message(e), high_at)),
                    Ok(max) => if max < min {
                        Err(error_at(invalid_repetition(rep), position))
                    } else {
                        Ok(
                            PatternView::Repeated(
                                Box::new(RepetitionView::Specific(p, min, Some(max))),
                            ),
                        )
                    },
                },
            }
        } else if high.len() > 0 {
            match number_value(high) {
                Err(e) => Err(error_at(number_message(e), high_at)),
                Ok(max) => Ok(
                    PatternView::Repeated(Box::new(RepetitionView::Specific(p, 0, Some(max)))),
                ),
            }
        } else if low.len() > 0 {
            match number_value(low) {
                Err(e) => Err(error_at(number_message(e), position)),
                Ok(min) => Ok(
                    PatternView::Concat(
                        seq![
                            PatternView::Repeated(
                                Box::new(RepetitionView::Specific(p, min, Some(min))),
                            ),
                            PatternView::Repeated(Box::new(RepetitionView::ZeroOrMore(p))),
                        ],
                    ),
                ),
            }
        } else {
            Err(error_at("invalid repetition pattern "@ + debug_list(rep), position))
        }
    }
}

/// Parse the counts of a repetition inside curly braces: {1} | {1,} | {,1} | {1,2}
pub fn parse_specific_repetition<'a>(rep: ParseState<'a>, p: Pattern) -> (r: Result<
    Pattern,
    ParseError,
>)
    requires
        rep.wf(),
    ensures
        match r {
            Ok(pattern) => repetition(rep.src@, rep.pos as nat, p@) == Ok::<
                PatternView,
                ParseErrorView,
            >(pattern@) && (solid(p@) ==> solid(pattern@)),
            Err(e) => repetition(rep.src@, rep.pos as nat, p@) == Err::<
                PatternView,
                ParseErrorView,
            >(e@),
        },
{
    proof {
        reveal_with_fuel(Pattern::model, 2);
        if solid(p@) && repetition(rep.src@, rep.pos as nat, p@) is Ok {
            lemma_repetition_solid(rep.src@, rep.pos as nat, p@);
        }
    }
    let n = rep.len();
    let comma = find_comma(rep.src, 0);
    if comma == n {
        // {1}
        match parse_number(rep.src) {
            Ok(count) => Ok(Pattern::Repeated(Box::new(Repetition::Specific(p, count, None)))),
            Err(_) => repetition_error(rep),
        }
    } else {
        let second = find_comma(rep.src, comma + 1);
        let low = rep.sub(0, comma);
        let high = rep.sub(comma + 1, second);
        if low.len() > 0 && high.len() > 0 {
            // {2,3}
            let min = match parse_number(low.src) {
                Ok(min) => min,
                Err(e) => {
                    return number_error(e, low.pos);
                },
            };
            let max = match parse_number(high.src) {
                Ok(max) => max,
                Err(e) => {
                    return number_error(e, high.pos);
                },
            };
            if max < min {
                return repetition_error(rep);
            }
            Ok(Pattern::Repeated(Box::new(Repetition::Specific(p, min, Some(max)))))
        } else if high.len() > 0 {
            // {,3}
            let max = match parse_number(high.src) {
                Ok(max) => max,
                Err(e) => {
                    return number_error(e, high.pos);
                },
            };
            Ok(Pattern::Repeated(Box::new(Repetition::Specific(p, 0, Some(max)))))
        } else if low.len() > 0 {
            // {3,}
            let min = match parse_number(low.src) {
                Ok(min) => min,
                Err(e) => {
                    return number_error(e, low.pos);
                },
            };
            let exactly = Pattern::Repeated(
                Box::new(Repetition::Specific(p.clone(), min, Some(min))),
            );
            let more = Pattern::Repeated(Box::new(Repetition::ZeroOrMore(p)));
            let mut both: Vec<Pattern> = Vec::new();
            both.push(exactly);
            both.push(more);
            proof {
                Pattern::lemma_concat_view(both);
                assert(views(both@) =~= seq![exactly@, more@]);
            }
            Ok(Pattern::Concat(both))
        } else {
            let mut message: Vec<char> = Vec::new();
            append_str(&mut message, "invalid repetition pattern ");
            append_debug_list(&mut message, rep.src);
            assert(message@ =~= "invalid repetition pattern "@ + debug_list(rep.src@));
            Err(ParseError { message: string_of(message.as_slice()), position: rep.pos })
        }
    }
}


/// The pattern `p` under one of the operators `+`, `*` and `?`.
pub open spec fn repeated_by(op: char, p: PatternView) -> PatternView {
    PatternView::Repeated(
        Box::new(
            if op == '+' {
                RepetitionView::OnceOrMore(p)
            } else if op == '*' {
                RepetitionView::ZeroOrMore(p)
            } else {
                RepetitionView::ZeroOrOnce(p)
            },
        ),
    )
}

/// The bracket that closes the first character of `s` lies after it and within `s`.
pub proof fn lemma_closing_bounds(s: Seq<char>, parens: (char, char))
    requires
        closing(s, parens) is Some,
    ensures
        1 <= closing(s, parens)->0 < s.len(),
        is_closing(s, parens, closing(s, parens)->0),
{
    let end = closing(s, parens)->0;
    assert(is_closing(s, parens, end));
    assert(depth_at(s, parens, -1) == 0);
    assert(depth_at(s, parens, 0) == 1);
}

/// The grammar. `src` is what is left to read of one expression, `position` is where it begins
/// in the whole regular expression, and `stack` holds the patterns read so far in this
/// expression. The result is the pattern of the expression, or the first error.
///
/// - `.` is any character; `^` is the anchor at position 0 of the whole and a plain character
///   elsewhere; `$` is the anchor as the last character of the whole, which has `whole`
///   characters, and a plain character elsewhere.
/// - `+`, `*` and `?` repeat the pattern read last.
/// - `|` makes the choice between the expression so far and all that follows.
/// - `(` up to its closing `)` is a submatch of the expression between them.
/// - `[` up to its closing `]` is a character class.
/// - `{` up to its closing `}` repeats the pattern read last as the content says.
/// - Any other character stands for itself.
pub open spec fn parse_items(
    src: Seq<char>,
    position: nat,
    whole: nat,
    stack: Seq<PatternView>,
) -> Result<PatternView, ParseErrorView>
    decreases src.len(),
{
    if src.len() == 0 {
        finish(stack, position)
    } else {
        let c = src[0];
        let rest = src.skip(1);
        if c == '.' {
            parse_items(rest, position + 1, whole, stack.push(PatternView::Any))
        } else if c == '$' {
            if position + 1 == whole {
                parse_items(
                    rest,
                    position + 1,
                    whole,
                    stack.push(PatternView::Anchor(AnchorLocation::End)),
                )
            } else {
                parse_items(rest, position + 1, whole, stack.push(PatternView::Char('$')))
            }
        } else if c == '^' {
            if position == 0 {
                parse_items(
                    rest,
                    position + 1,
                    whole,
                    stack.push(PatternView::Anchor(AnchorLocation::Begin)),
                )
            } else {
                parse_items(rest, position + 1, whole, stack.push(PatternView::Char('^')))
            }
        } else if c == '+' || c == '*' || c == '?' {
            if stack.len() == 0 {
                Err(error_at("+ without pattern to repeat"@, position))
            } else {
                parse_items(
                    rest,
                    position + 1,
                    whole,
                    stack.drop_last().push(repeated_by(c, stack.last())),
                )
            }
        } else if c == '|' {
            match parse_items(rest, position + 1, whole, Seq::empty()) {
                Err(e) => Err(e),
                Ok(right) => match finish(stack, position) {
                    Err(e) => Err(e),
                    Ok(left) => Ok(PatternView::Alternate(seq![left, right])),
                },
            }
        } else if c == '(' {
            match closing(src, ROUND_PARENS) {
                None => Err(error_at("unmatched ("@, position + src.len())),
                Some(end) => {
                    proof {
                        lemma_closing_bounds(src, ROUND_PARENS);
                    }
                    match parse_items(src.subrange(1, end), position + 1, whole, Seq::empty()) {
                        Err(e) => Err(e),
                        Ok(inner) => parse_items(
                            src.skip(end + 1),
                            (position + end + 1) as nat,
                            whole,
                            stack.push(PatternView::Submatch(Box::new(inner))),
                        ),
                    }
                },
            }
        } else if c == ')' {
            Err(error_at("unopened ')'"@, position))
        } else if c == '[' {
            match closing(src, SQUARE_BRACKETS) {
                None => Err(error_at("unmatched ["@, position + src.len())),
                Some(end) => {
                    proof {
                        lemma_closing_bounds(src, SQUARE_BRACKETS);
                    }
                    parse_items(
                        src.skip(end + 1),
                        (position + end + 1) as nat,
                        whole,
                        stack.push(class_pattern(src.subrange(1, end))),
                    )
                },
            }
        } else if c == ']' {
            Err(error_at("unopened ']'"@, position))
        } else if c == '{' {
            match closing(src, CURLY_BRACKETS) {
                None => Err(error_at("unmatched {"@, position + src.len())),
                Some(end) => {
                    proof {
                        lemma_closing_bounds(src, CURLY_BRACKETS);
                    }
                    if stack.len() == 0 {
                        Err(error_at("repetition {} without pattern to repeat"@, position))
                    } else {
                        match repetition(src.subrange(1, end), position + 1, stack.last()) {
                            Err(e) => Err(e),
                            Ok(repeated) => parse_items(
                                src.skip(end + 1),
                                (position + end + 1) as nat,
                                whole,
                                stack.drop_last().push(repeated),
                            ),
                        }
                    }
                },
            }
        } else {
            parse_items(rest, position + 1, whole, stack.push(PatternView::Char(c)))
        }
    }
}

/// The pattern of a whole regular expression, or why it has none.
pub open spec fn parse_spec(src: Seq<char>) -> Result<PatternView, ParseErrorView> {
    parse_items(src, 0, src.len(), Seq::empty())
}

/// Every pattern of the list is solid.
pub open spec fn all_solid(ps: Seq<PatternView>) -> bool {
    forall|i: int| 0 <= i < ps.len() ==> solid(#[trigger] ps[i])
}

/// A pattern under a count is solid, if the pattern is.
proof fn lemma_repetition_solid(rep: Seq<char>, position: nat, p: PatternView)
    requires
        solid(p),
        repetition(rep, position, p) is Ok,
    ensures
        solid(repetition(rep, position, p)->Ok_0),
{
    let r = repetition(rep, position, p)->Ok_0;
    let comma = comma_pos(rep, 0);
    if comma != rep.len() {
        let low = rep.subrange(0, comma);
        let high = rep.subrange(comma + 1, comma_pos(rep, comma + 1));
        if low.len() > 0 && high.len() == 0 {
            let min = number_value(low)->Ok_0;
            let both = seq![
                PatternView::Repeated(Box::new(RepetitionView::Specific(p, min, Some(min)))),
                PatternView::Repeated(Box::new(RepetitionView::ZeroOrMore(p))),
            ];
            assert(r == PatternView::Concat(both));
            assert forall|i: int| 0 <= i < both.len() implies solid(#[trigger] both[i]) by {}
        }
    }
}

/// What a stack of solid patterns stands for is solid.
proof fn lemma_finish_solid(stack: Seq<PatternView>, position: nat)
    requires
        all_solid(stack),
        finish(stack, position) is Ok,
    ensures
        solid(finish(stack, position)->Ok_0),
{
    if stack.len() == 1 {
        assert(solid(stack[0]));
    }
}

proof fn lemma_push_solid(stack: Seq<PatternView>, p: PatternView)
    requires
        all_solid(stack),
        solid(p),
    ensures
        all_solid(stack.push(p)),
{
    assert forall|i: int| 0 <= i < stack.push(p).len() implies solid(
        #[trigger] stack.push(p)[i],
    ) by {
        if i < stack.len() {
            assert(solid(stack[i]));
        }
    }
}

/// parse_re is the parser of one expression: it reads its characters to the end, and returns
/// the pattern together with the state after the last character, or the first error.
pub fn parse_re<'a>(input: ParseState<'a>) -> (r: Result<(Pattern, ParseState<'a>), ParseError>)
    requires
        input.wf(),
    ensures
        match r {
            Ok((p, rest)) => {
                &&& parse_items(input.src@, input.pos as nat, input.whole as nat, Seq::empty()) == Ok::<
                    PatternView,
                    ParseErrorView,
                >(p@)
                &&& solid(p@)
                &&& rest.src@.len() == 0
                &&& rest.pos == input.pos + input.src@.len()
                &&& rest.whole == input.whole
            },
            Err(e) => parse_items(input.src@, input.pos as nat, input.whole as nat, Seq::empty()) == Err::<
                PatternView,
                ParseErrorView,
            >(e@),
        },
    decreases input.src@.len(),
{
    // The stack assists us in parsing the linear parts of a regular expression, e.g. non-pattern
    // characters, or character sets.
    let mut stack = ParseStack::new();
    let mut s = input;
    loop
        invariant
            s.wf(),
            s.whole == input.whole,
            all_solid(stack@),
            s.src@.len() <= input.src@.len(),
            s.pos + s.src@.len() == input.pos + input.src@.len(),
            parse_items(input.src@, input.pos as nat, input.whole as nat, Seq::empty()) == parse_items(
                s.src@,
                s.pos as nat,
                s.whole as nat,
                stack@,
            ),
        ensures
            s.src@.len() == 0,
        decreases s.src@.len(),
    {
        if s.len() == 0 {
            break ;
        }
        proof {
            reveal_with_fuel(Pattern::model, 2);
        }
        let c = s.index(0);
        if c == '.' {
            stack.push(Pattern::Any);
            s = s.from(1);
        } else if c == '$' {
            if s.pos() + 1 == s.whole {
                stack.push(Pattern::Anchor(AnchorLocation::End));
            } else {
                stack.push(Pattern::Char('$'));
            }
            s = s.from(1);
        } else if c == '^' {
            if s.pos() == 0 {
                stack.push(Pattern::Anchor(AnchorLocation::Begin));
            } else {
                stack.push(Pattern::Char('^'));
            }
            s = s.from(1);
        } else if c == '+' || c == '*' || c == '?' {
            if let Some(p) = stack.pop() {
                let rep = if c == '+' {
                    Repetition::OnceOrMore(p)
                } else if c == '*' {
                    Repetition::ZeroOrMore(p)
                } else {
                    Repetition::ZeroOrOnce(p)
                };
                stack.push(Pattern::Repeated(Box::new(rep)));
                s = s.from(1);
            } else {
                return s.err("+ without pattern to repeat", 0);
            }
        } else if c == '|' {
            // Alternation: parse the expression on the right of the pipe sign and push an
            // alternation between what we've already seen and the stuff on the right.
            let (right, newst) = match parse_re(s.from(1)) {
                Ok(parsed) => parsed,
                Err(e) => {
                    return Err(e);
                },
            };
            if stack.empty() {
                return s.err("empty regex", 0);
            }
            let ghost before = stack@;
            let left = stack.to_retree();
            assert(finish(before, s.pos as nat) == Ok::<PatternView, ParseErrorView>(left@));
            let mut both: Vec<Pattern> = Vec::new();
            both.push(left);
            both.push(right);
            proof {
                Pattern::lemma_concat_view(both);
                assert(views(both@) =~= seq![left@, right@]);
            }
            stack = ParseStack::new();
            stack.push(Pattern::Alternate(both));
            s = newst;
        } else if c == '(' {
            match split_in_parens(s, ROUND_PARENS) {
                Some((parens, newst)) => {
                    proof {
                        lemma_closing_bounds(s.src@, ROUND_PARENS);
                    }
                    // Parse the sub-regex within parentheses.
                    let (pat, _) = match parse_re(parens) {
                        Ok(parsed) => parsed,
                        Err(e) => {
                            return Err(e);
                        },
                    };
                    stack.push(Pattern::Submatch(Box::new(pat)));
                    // Set the current state to contain the string after the parentheses.
                    s = newst;
                },
                None => {
                    return s.err("unmatched (", s.len());
                },
            }
        } else if c == ')' {
            return s.err("unopened ')'", 0);
        } else if c == '[' {
            match parse_char_set(s) {
                Ok((pat, newst)) => {
                    proof {
                        lemma_closing_bounds(s.src@, SQUARE_BRACKETS);
                    }
                    stack.push(pat);
                    s = newst;
                },
                Err(e) => {
                    return Err(e);
                },
            }
        } else if c == ']' {
            return s.err("unopened ']'", 0);
        } else if c == '{' {
            match split_in_parens(s, CURLY_BRACKETS) {
                Some((rep, newst)) => {
                    proof {
                        lemma_closing_bounds(s.src@, CURLY_BRACKETS);
                    }
                    if let Some(p) = stack.pop() {
                        let repeated = match parse_specific_repetition(rep, p) {
                            Ok(repeated) => repeated,
                            Err(e) => {
                                return Err(e);
                            },
                        };
                        stack.push(repeated);
                        s = newst;
                    } else {
                        return s.err("repetition {} without pattern to repeat", 0);
                    }
                },
                None => {
                    return s.err("unmatched {", s.len());
                },
            }
        } else {
            stack.push(Pattern::Char(c));
            s = s.from(1);
        }
    }
    if stack.empty() {
        return s.err("empty regex", 0);
    }
    let ghost before = stack@;
    let p = stack.to_retree();
    assert(finish(before, s.pos as nat) == Ok::<PatternView, ParseErrorView>(p@));
    Ok((p, s))
}

/// Parses a regular expression into its pattern, which can be compiled. An expression that the
/// grammar rejects gives the error in one line, its message followed by ` at :` and the
/// position.
pub fn parse(s: &str) -> (r: Result<Pattern, String>)
    ensures
        match r {
            Ok(p) => parse_spec(s@) == Ok::<PatternView, ParseErrorView>(p@) && solid(p@),
            Err(message) => parse_spec(s@) is Err && message@ == parse_spec(s@)->Err_0.render(),
        },
{
    let src = chars_of(s);
    match parse_re(ParseState::new(src.as_slice())) {
        Ok((p, _)) => Ok(p),
        Err(e) => Err(e.to_string()),
    }
}

} // verus!
