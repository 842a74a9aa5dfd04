//! Small text utilities on sequences of characters: conversions between strings and character
//! vectors, decimal numbers, and the quoted form of characters.

use vstd::prelude::*;

verus! {

/// `String::push` of the standard library appends one character to the string.
pub assume_specification[ String::push ](s: &mut String, ch: char)
    ensures
        final(s)@ == old(s)@.push(ch),
;

/// The quoted form of a character as the standard library's `Debug` prints it, between single
/// quotes and with its escapes.
pub uninterp spec fn char_debug(c: char) -> Seq<char>;

/// Formats one character with the standard library's `Debug` implementation for `char`. The
/// result depends on the character alone and is known here only by its name, `char_debug`.
#[verifier::external_body]
fn debug_char(c: char) -> (s: String)
    ensures
        s@ == char_debug(c),
{
    format!("{:?}", c)
}

/// The characters of a string, in order.
pub fn chars_of(s: &str) -> (v: Vec<char>)
    ensures
        v@ == s@,
{
    let mut v: Vec<char> = Vec::new();
    for c in it: s.chars()
        invariant
            v@ == it.seq().take(it.index()),
    {
        v.push(c);
    }
    v
}

/// The character at index `i` of `v`.
pub fn char_at(v: &[char], i: usize) -> (c: char)
    requires
        i < v@.len(),
    ensures
        c == v@[i as int],
{
    v[i]
}

/// The string made of the given characters.
pub fn string_of(v: &[char]) -> (s: String)
    ensures
        s@ == v@,
{
    let mut s = String::new();
    let mut i: usize = 0;
    while i < v.len()
        invariant
            i <= v.len(),
            s@ == v@.take(i as int),
        decreases v.len() - i,
    {
        s.push(char_at(v, i));
        i += 1;
    }
    assert(v@.take(v.len() as int) =~= v@);
    s
}

/// Appends the characters of `s` to `out`.
pub fn append_str(out: &mut Vec<char>, s: &str)
    ensures
        final(out)@ == old(out)@ + s@,
{
    let ghost before = out@;
    for c in it: s.chars()
        invariant
            out@ == before + it.seq().take(it.index()),
    {
        out.push(c);
    }
}

/// Appends the characters of `s` to `out`.
pub fn append_chars(out: &mut Vec<char>, s: &[char])
    ensures
        final(out)@ == old(out)@ + s@,
{
    let ghost before = out@;
    let mut i: usize = 0;
    while i < s.len()
        invariant
            i <= s.len(),
            out@ == before + s@.take(i as int),
        decreases s.len() - i,
    {
        out.push(char_at(s, i));
        i += 1;
    }
    assert(s@.take(s.len() as int) =~= s@);
}

/// The character of a decimal digit.
pub open spec fn digit_char(d: nat) -> char {
    if d == 0 {
        '0'
    } else if d == 1 {
        '1'
    } else if d == 2 {
        '2'
    } else if d == 3 {
        '3'
    } else if d == 4 {
        '4'
    } else if d == 5 {
        '5'
    } else if d == 6 {
        '6'
    } else if d == 7 {
        '7'
    } else if d == 8 {
        '8'
    } else {
        '9'
    }
}

/// The decimal digits of a number, most significant first, without leading zeros.
pub open spec fn decimal(n: nat) -> Seq<char>
    decreases n,
{
    if n < 10 {
        seq![digit_char(n)]
    } else {
        decimal(n / 10).push(digit_char(n % 10))
    }
}

fn digit_to_char(d: usize) -> (c: char)
    requires
        d < 10,
    ensures
        c == digit_char(d as nat),
{
    if d == 0 {
        '0'
    } else if d == 1 {
        '1'
    } else if d == 2 {
        '2'
    } else if d == 3 {
        '3'
    } else if d == 4 {
        '4'
    } else if d == 5 {
        '5'
    } else if d == 6 {
        '6'
    } else if d == 7 {
        '7'
    } else if d == 8 {
        '8'
    } else {
        '9'
    }
}

/// Appends the decimal digits of `n` to `out`.
pub fn append_decimal(out: &mut Vec<char>, n: usize)
    ensures
        final(out)@ == old(out)@ + decimal(n as nat),
    decreases n,
{
    if n < 10 {
        out.push(digit_to_char(n));
        assert(out@ =~= old(out)@ + decimal(n as nat));
    } else {
        append_decimal(out, n / 10);
        out.push(digit_to_char(n % 10));
        assert(out@ =~= old(out)@ + decimal(n as nat));
    }
}

/// The quoted forms of a sequence of characters, separated by a comma and a space.
pub open spec fn debug_items(cs: Seq<char>) -> Seq<char>
    decreases cs.len(),
{
    if cs.len() == 0 {
        Seq::empty()
    } else if cs.len() == 1 {
        char_debug(cs[0])
    } else {
        debug_items(cs.drop_last()) + seq![',', ' '] + char_debug(cs.last())
    }
}

/// A sequence of characters as a bracketed list of quoted characters.
pub open spec fn debug_list(cs: Seq<char>) -> Seq<char> {
    seq!['['] + debug_items(cs) + seq![']']
}

/// Appends the quoted form of one character to `out`.
pub fn append_debug_char(out: &mut Vec<char>, c: char)
    ensures
        final(out)@ == old(out)@ + char_debug(c),
{
    let quoted = debug_char(c);
    append_str(out, quoted.as_str());
}

/// Appends the bracketed list of the quoted characters of `cs` to `out`.
pub fn append_debug_list(out: &mut Vec<char>, cs: &[char])
    ensures
        final(out)@ == old(out)@ + debug_list(cs@),
{
    let ghost before = out@;
    out.push('[');
    let mut i: usize = 0;
    while i < cs.len()
        invariant
            i <= cs.len(),
            out@ == before + seq!['['] + debug_items(cs@.take(i as int)),
        decreases cs.len() - i,
    {
        let ghost so_far = out@;
        if i > 0 {
            out.push(',');
            out.push(' ');
        }
        append_debug_char(out, char_at(cs, i));
        proof {
            let next = cs@.take(i + 1);
            assert(next.drop_last() =~= cs@.take(i as int));
            assert(next.last() == cs@[i as int]);
            if i > 0 {
                assert(out@ =~= so_far + seq![',', ' '] + char_debug(cs@[i as int]));
            }
            assert(out@ =~= before + seq!['['] + debug_items(next));
        }
        i += 1;
    }
    out.push(']');
    assert(cs@.take(cs.len() as int) =~= cs@);
    assert(out@ =~= before + debug_list(cs@));
}

/// Why a sequence of characters is not a number that fits in 32 bits.
#[derive(Clone, Copy, Debug, PartialEq, Eq)]
pub enum NumberError {
    /// There is no character at all.
    Empty,
    /// A character is no decimal digit, or a sign stands alone.
    InvalidDigit,
    /// The digits up to some point already exceed the largest 32-bit number.
    TooLarge,
}

/// The value of a decimal digit, if the character is one.
pub open spec fn digit_value(c: char) -> Option<nat> {
    if c == '0' {
        Some(0)
    } else if c == '1' {
        Some(1)
    } else if c == '2' {
        Some(2)
    } else if c == '3' {
        Some(3)
    } else if c == '4' {
        Some(4)
    } else if c == '5' {
        Some(5)
    } else if c == '6' {
        Some(6)
    } else if c == '7' {
        Some(7)
    } else if c == '8' {
        Some(8)
    } else if c == '9' {
        Some(9)
    } else {
        None
    }
}

/// Reads digits from left to right onto the number `acc`. The first character that is no digit,
/// or the first digit with which the number no longer fits in 32 bits, decides the error.
pub open spec fn digits_value(s: Seq<char>, acc: nat) -> Result<nat, NumberError>
    decreases s.len(),
{
    if s.len() == 0 {
        Ok(acc)
    } else {
        match digit_value(s[0]) {
            None => Err(NumberError::InvalidDigit),
            Some(d) => if acc * 10 + d > u32::MAX {
                Err(NumberError::TooLarge)
            } else {
                digits_value(s.skip(1), acc * 10 + d)
            },
        }
    }
}

/// The number that a sequence of characters denotes: decimal digits, one `+` may precede them.
pub open spec fn number_value(s: Seq<char>) -> Result<nat, NumberError> {
    if s.len() == 0 {
        Err(NumberError::Empty)
    } else if s.len() == 1 && (s[0] == '+' || s[0] == '-') {
        Err(NumberError::InvalidDigit)
    } else if s[0] == '+' {
        digits_value(s.skip(1), 0)
    } else {
        digits_value(s, 0)
    }
}

fn char_to_digit(c: char) -> (d: Option<u64>)
    ensures
        match d {
            Some(v) => digit_value(c) == Some(v as nat) && v < 10,
            None => digit_value(c) is None,
        },
{
    if c == '0' {
        Some(0)
    } else if c == '1' {
        Some(1)
    } else if c == '2' {
        Some(2)
    } else if c == '3' {
        Some(3)
    } else if c == '4' {
        Some(4)
    } else if c == '5' {
        Some(5)
    } else if c == '6' {
        Some(6)
    } else if c == '7' {
        Some(7)
    } else if c == '8' {
        Some(8)
    } else if c == '9' {
        Some(9)
    } else {
        None
    }
}

/// Reads a 32-bit number from its decimal digits.
pub fn parse_number(s: &[char]) -> (r: Result<u32, NumberError>)
    ensures
        match r {
            Ok(v) => number_value(s@) == Ok::<nat, NumberError>(v as nat),
            Err(e) => number_value(s@) == Err::<nat, NumberError>(e),
        },
{
    let n = s.len();
    if n == 0 {
        return Err(NumberError::Empty);
    }
    if n == 1 && (char_at(s, 0) == '+' || char_at(s, 0) == '-') {
        return Err(NumberError::InvalidDigit);
    }
    let mut i: usize = if char_at(s, 0) == '+' {
        1
    } else {
        0
    };
    let mut acc: u64 = 0;
    assert(s@.skip(0) =~= s@);
    while i < n
        invariant
            i <= n,
            n == s.len(),
            acc <= u32::MAX,
            number_value(s@) == digits_value(s@.skip(i as int), acc as nat),
        decreases n - i,
    {
        assert(s@.skip(i as int).skip(1) =~= s@.skip(i + 1));
        match char_to_digit(char_at(s, i)) {
            None => {
                return Err(NumberError::InvalidDigit);
            },
            Some(d) => {
                let next: u64 = acc * 10 + d;
                if next > 0xffff_ffff {
                    return Err(NumberError::TooLarge);
                }
                acc = next;
            },
        }
        i += 1;
    }
    Ok(acc as u32)
}

} // verus!
