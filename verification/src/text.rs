//! Characters and text: what the library needs of them, each operation with
//! a statement of the characters it gives.
use vstd::prelude::*;
use vstd::string::*;

verus! {

/// What `char::is_alphanumeric` answers for a character.
pub uninterp spec fn char_is_alphanumeric(c: char) -> bool;

/// What `{:?}` writes of a text.
pub uninterp spec fn debug_text(s: Seq<char>) -> Seq<char>;

/// `char::is_whitespace`: it answers `true` for the characters that have Unicode's
/// White_Space property, and for no others.
pub assume_specification[ char::is_whitespace ](c: char) -> (answer: bool)
    ensures
        answer == whitespace(c),
;

/// `char::is_alphanumeric`: the answer depends on the character alone.
pub assume_specification[ char::is_alphanumeric ](c: char) -> (answer: bool)
    ensures
        answer == char_is_alphanumeric(c),
;

/// `String::push`: the character is added at the end.
pub assume_specification[ String::push ](s: &mut String, c: char)
    ensures
        final(s)@ == old(s)@.push(c),
;

/// `==` on `str`: two texts are equal when their characters are.
pub assume_specification[ <str as PartialEq>::eq ](a: &str, b: &str) -> (answer: bool)
    ensures
        answer == (a@ == b@),
;

/// The `{:?}` of a `str`, by `format!`: what is written depends on the
/// characters alone. How each character is escaped is not stated.
#[verifier::external_body]
pub(crate) fn quoted(s: &str) -> (out: String)
    ensures
        out@ == debug_text(s@),
{
    format!("{:?}", s)
}

/// Whether a character is white space, as Unicode's White_Space property has it: the
/// space and the five controls from tab to carriage return, the next line, and the
/// spaces and separators beyond ASCII.
pub open spec fn whitespace(c: char) -> bool {
    ||| '\t' <= c <= '\r'
    ||| c == ' '
    ||| c == '\u{85}'
    ||| c == '\u{a0}'
    ||| c == '\u{1680}'
    ||| '\u{2000}' <= c <= '\u{200a}'
    ||| c == '\u{2028}'
    ||| c == '\u{2029}'
    ||| c == '\u{202f}'
    ||| c == '\u{205f}'
    ||| c == '\u{3000}'
}

/// Whether a character is a letter or a digit: in ASCII the letters of both
/// cases and the ten digits, beyond it what Unicode says.
pub open spec fn alphanumeric(c: char) -> bool {
    if c <= '\u{7f}' {
        'a' <= c <= 'z' || 'A' <= c <= 'Z' || digit(c)
    } else {
        char_is_alphanumeric(c)
    }
}

/// Whether a character is one of the ten ASCII digits.
pub open spec fn digit(c: char) -> bool {
    '0' <= c <= '9'
}

/// The ASCII letter in lower case, any other character itself.
pub open spec fn lower(c: char) -> char {
    if 'A' <= c <= 'Z' {
        (c as u32 + 32) as char
    } else {
        c
    }
}

/// Whether two texts are one when the case of ASCII letters is not looked at.
pub open spec fn same_but_case(a: Seq<char>, b: Seq<char>) -> bool {
    &&& a.len() == b.len()
    &&& forall|i: int| 0 <= i < a.len() ==> lower(#[trigger] a[i]) == lower(b[i])
}

/// The text from its first character that is not white space on.
pub open spec fn trim_start(s: Seq<char>) -> Seq<char>
    decreases s.len(),
{
    if s.len() > 0 && whitespace(s[0]) {
        trim_start(s.drop_first())
    } else {
        s
    }
}

/// The text up to its last character that is not white space.
pub open spec fn trim_end(s: Seq<char>) -> Seq<char>
    decreases s.len(),
{
    if s.len() > 0 && whitespace(s.last()) {
        trim_end(s.drop_last())
    } else {
        s
    }
}

/// The text without the white space around it.
pub open spec fn trim(s: Seq<char>) -> Seq<char> {
    trim_end(trim_start(s))
}

/// The index of the first `c` at or after `at`, the length where there is
/// none.
pub open spec fn index_of(s: Seq<char>, c: char, at: int) -> int
    decreases s.len() - at,
{
    if 0 <= at < s.len() && s[at] != c {
        index_of(s, c, at + 1)
    } else {
        at
    }
}

/// A number below ten as its digit.
pub open spec fn numeral(n: nat) -> char {
    (48 + n) as char
}

/// A number in decimal, without leading zeros.
pub open spec fn decimal(n: nat) -> Seq<char>
    decreases n,
{
    if n < 10 {
        seq![numeral(n)]
    } else {
        decimal(n / 10).push(numeral(n % 10))
    }
}

/// The number that a text of decimal digits writes.
pub open spec fn digits_value(s: Seq<char>) -> nat
    decreases s.len(),
{
    if s.len() == 0 {
        0
    } else {
        digits_value(s.drop_last()) * 10 + (s.last() as nat - 48) as nat
    }
}

/// The number that a text writes which is all digits, at least one, and no
/// more than a `u32` holds.
pub open spec fn plain_number(s: Seq<char>) -> Option<u32> {
    if s.len() > 0 && (forall|i: int| 0 <= i < s.len() ==> digit(#[trigger] s[i]))
        && digits_value(s) <= u32::MAX {
        Some(digits_value(s) as u32)
    } else {
        None
    }
}

/// The number that a text writes: a plain number, with an optional `+` before
/// it.
pub open spec fn number(s: Seq<char>) -> Option<u32> {
    if s.len() > 0 && s[0] == '+' {
        plain_number(s.drop_first())
    } else {
        plain_number(s)
    }
}

/// Whether `a` and `b` hold the same characters.
pub(crate) fn same(a: &str, b: &str) -> (answer: bool)
    ensures
        answer == (a@ == b@),
{
    *a == *b
}

/// Whether `c` is a letter or a digit.
pub fn is_alphanumeric(c: char) -> (answer: bool)
    ensures
        answer == alphanumeric(c),
{
    if c <= '\u{7f}' {
        ('a' <= c && c <= 'z') || ('A' <= c && c <= 'Z') || ('0' <= c && c <= '9')
    } else {
        c.is_alphanumeric()
    }
}

/// `c`, in lower case where it is an ASCII letter.
pub(crate) fn to_lower(c: char) -> (out: char)
    ensures
        out == lower(c),
{
    if 'A' <= c && c <= 'Z' {
        (c as u8 + 32) as char
    } else {
        c
    }
}

/// The characters of `text`, in order.
pub(crate) fn characters(text: &str) -> (out: Vec<char>)
    ensures
        out@ == text@,
{
    let mut out: Vec<char> = Vec::new();
    for c in it: text.chars()
        invariant
            it.seq() == text@,
            out@ == it.seq().take(it.index() as int),
    {
        assert(it.seq().take(it.index() + 1) == it.seq().take(it.index() as int).push(c));
        out.push(c);
    }
    assert(text@.take(text@.len() as int) == text@);
    out
}

/// The text of `chars[from..to]`.
pub(crate) fn string_of(chars: &Vec<char>, from: usize, to: usize) -> (out: String)
    requires
        from <= to <= chars.len(),
    ensures
        out@ == chars@.subrange(from as int, to as int),
{
    let mut out: String = String::new();
    let mut at: usize = from;
    while at < to
        invariant
            from <= at <= to <= chars.len(),
            out@ == chars@.subrange(from as int, at as int),
        decreases to - at,
    {
        assert(chars@.subrange(from as int, at + 1) == chars@.subrange(from as int, at as int).push(
            chars@[at as int],
        ));
        out.push(chars[at]);
        at = at + 1;
    }
    out
}

/// `n` in decimal.
pub fn in_decimal(n: u64) -> (out: String)
    ensures
        out@ == decimal(n as nat),
    decreases n,
{
    let numeral: char = (48 + (n % 10) as u8) as char;
    let mut out: String = if n < 10 {
        String::new()
    } else {
        in_decimal(n / 10)
    };
    out.push(numeral);
    assert(Seq::<char>::empty().push(numeral) == seq![numeral]);
    out
}

/// Where `index_of` stops: at a `c`, or at the end.
pub proof fn lemma_index_of(s: Seq<char>, c: char, at: int)
    requires
        0 <= at <= s.len(),
    ensures
        at <= index_of(s, c, at) <= s.len(),
        index_of(s, c, at) < s.len() ==> s[index_of(s, c, at)] == c,
        forall|i: int| at <= i < index_of(s, c, at) ==> s[i] != c,
    decreases s.len() - at,
{
    if at < s.len() && s[at] != c {
        lemma_index_of(s, c, at + 1);
    }
}

/// A digit more never makes a number smaller.
proof fn lemma_digits_value_grows(s: Seq<char>, upto: int)
    requires
        0 <= upto <= s.len(),
    ensures
        digits_value(s.take(upto)) <= digits_value(s),
    decreases s.len(),
{
    if upto == s.len() {
        assert(s.take(upto) == s);
    } else {
        assert(s.drop_last().take(upto) == s.take(upto));
        lemma_digits_value_grows(s.drop_last(), upto);
    }
}

/// The number that `text` writes, if it writes one.
pub fn to_number(text: &str) -> (out: Option<u32>)
    ensures
        out == number(text@),
{
    let chars = characters(text);
    let start: usize = if chars.len() > 0 && chars[0] == '+' {
        1
    } else {
        0
    };
    let ghost digits = text@.skip(start as int);
    proof {
        assert(text@.skip(0) == text@);
        assert(text@.len() > 0 ==> text@.skip(1) == text@.drop_first());
    }
    if chars.len() == start {
        return None;
    }
    let mut value: u64 = 0;
    let mut at: usize = start;
    while at < chars.len()
        invariant
            chars@ == text@,
            digits == text@.skip(start as int),
            start <= at <= chars.len(),
            forall|i: int| 0 <= i < at - start ==> digit(#[trigger] digits[i]),
            value == digits_value(digits.take(at - start)),
            value <= u32::MAX,
            number(text@) == plain_number(digits),
        decreases chars.len() - at,
    {
        let c: char = chars[at];
        assert(digits[at - start] == c);
        if c < '0' || '9' < c {
            return None;
        }
        assert(digits.take(at - start + 1).drop_last() == digits.take(at - start));
        value = value * 10 + (c as u64 - 48);
        at = at + 1;
        if value > 0xffff_ffff {
            proof {
                lemma_digits_value_grows(digits, at - start);
            }
            return None;
        }
    }
    assert(digits.take(digits.len() as int) == digits);
    Some(value as u32)
}

/// `text` without the white space around it.
pub fn trimmed(text: &str) -> (out: String)
    ensures
        out@ == trim(text@),
{
    let chars = characters(text);
    let mut from: usize = 0;
    assert(text@.skip(0) == text@);
    while from < chars.len() && chars[from].is_whitespace()
        invariant
            chars@ == text@,
            from <= chars.len(),
            trim_start(text@.skip(from as int)) == trim_start(text@),
        decreases chars.len() - from,
    {
        assert(text@.skip(from as int).drop_first() == text@.skip(from + 1));
        from = from + 1;
    }
    let mut to: usize = chars.len();
    assert(text@.subrange(from as int, to as int) == text@.skip(from as int));
    while from < to && chars[to - 1].is_whitespace()
        invariant
            chars@ == text@,
            from <= to <= chars.len(),
            trim_end(text@.subrange(from as int, to as int)) == trim(text@),
        decreases to,
    {
        assert(text@.subrange(from as int, to as int).drop_last() == text@.subrange(
            from as int,
            to - 1,
        ));
        to = to - 1;
    }
    string_of(&chars, from, to)
}

/// The index of the first `c`, the length of `chars` where there is none.
pub(crate) fn find(chars: &Vec<char>, c: char) -> (at: usize)
    ensures
        at == index_of(chars@, c, 0),
        at <= chars.len(),
        at < chars.len() ==> chars@[at as int] == c,
{
    let mut at: usize = 0;
    while at < chars.len() && chars[at] != c
        invariant
            at <= chars.len(),
            index_of(chars@, c, at as int) == index_of(chars@, c, 0),
        decreases chars.len() - at,
    {
        at = at + 1;
    }
    at
}

} // verus!
