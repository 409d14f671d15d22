//! What the tokens of a text are: words, strings and single characters. And what the
//! texts are that the library reads and writes.
use crate::laws::source;
use crate::lexer;
use crate::protobuf;
use crate::text;
use vstd::prelude::*;

verus! {

/// Whether a character is a letter or a digit, in ASCII the letters of both cases and
/// the ten digits.
pub open spec fn letter_or_digit(c: char) -> bool {
    if c <= '\u{7f}' {
        ||| 'a' <= c <= 'z'
        ||| 'A' <= c <= 'Z'
        ||| '0' <= c <= '9'
    } else {
        text::char_is_alphanumeric(c)
    }
}

/// Whether a character belongs to a word: a letter, a digit, `_`, `.` or `-`.
pub open spec fn of_a_word(c: char) -> bool {
    letter_or_digit(c) || c == '_' || c == '.' || c == '-'
}

proof fn lemma_word_end(a: Seq<char>, b: Seq<char>, at: int)
    requires
        0 <= at <= a.len(),
        forall|i: int| 0 <= i < a.len() ==> of_a_word(#[trigger] a[i]),
        b.len() > 0 ==> !of_a_word(b[0]),
    ensures
        lexer::word_end(a + b, at) == a.len(),
    decreases a.len() - at,
{
    if at < a.len() {
        assert((a + b)[at] == a[at]);
        assert(of_a_word(a[at]));
        lemma_word_end(a, b, at + 1);
    } else if b.len() > 0 {
        assert((a + b)[at] == b[0]);
    }
}

/// A token at the beginning of a text, and what follows it.
proof fn lemma_first(token: Seq<char>, b: Seq<char>)
    requires
        token.len() > 0,
        lexer::piece(token + b, 0) == Ok::<(Option<Seq<char>>, int), Seq<char>>(
            (Some(token), token.len() as int),
        ),
    ensures
        lexer::tokens_of(token + b) == lexer::preceded(seq![token], lexer::tokens_of(b)),
{
    source::lemma_tokens_after(token, b, 0);
}

/// Letters, digits, `_`, `.` and `-` one after the other, as many as there are, are one
/// token.
pub proof fn law_a_word_is_a_token(word: Seq<char>, b: Seq<char>)
    requires
        word.len() > 0,
        !text::whitespace(word[0]),
        forall|i: int| 0 <= i < word.len() ==> of_a_word(#[trigger] word[i]),
        b.len() > 0 ==> !of_a_word(b[0]),
    ensures
        lexer::tokens_of(word + b) == (match lexer::tokens_of(b) {
            Ok(rest) => Ok::<Seq<Seq<char>>, Seq<char>>(seq![word] + rest),
            Err(why) => Err(why),
        }),
{
    let whole = word + b;
    assert(whole[0] == word[0]);
    assert(of_a_word(word[0]));
    lemma_word_end(word, b, 0);
    assert(whole.subrange(0, word.len() as int) == word);
    lemma_first(word, b);
}

/// Whether the characters of a string stay inside it: no quote that closes it is among
/// them, but one after a backslash, which takes the character after it along.
pub open spec fn inside(s: Seq<char>, quote: char) -> bool
    decreases s.len(),
{
    if s.len() == 0 {
        true
    } else if s[0] == '\\' {
        s.len() >= 2 && inside(s.skip(2), quote)
    } else {
        s[0] != quote && inside(s.skip(1), quote)
    }
}

proof fn lemma_string_close(a: Seq<char>, s: Seq<char>, quote: char, b: Seq<char>)
    requires
        inside(s, quote),
        quote != '\\',
    ensures
        lexer::string_close(a + s + seq![quote] + b, quote, a.len() as int) == Some(
            (a.len() + s.len()) as int,
        ),
    decreases s.len(),
{
    let whole = a + s + seq![quote] + b;
    if s.len() == 0 {
        assert(whole[a.len() as int] == quote);
    } else if s[0] == '\\' {
        let more = a + s.take(2);
        assert(whole[a.len() as int] == s[0]);
        assert(more + s.skip(2) + seq![quote] + b == whole);
        lemma_string_close(more, s.skip(2), quote, b);
    } else {
        let more = a + s.take(1);
        assert(whole[a.len() as int] == s[0]);
        assert(more + s.skip(1) + seq![quote] + b == whole);
        lemma_string_close(more, s.skip(1), quote, b);
    }
}

/// A string in quotes of either sort is one token, with its quotes, whatever is in it.
pub proof fn law_a_string_is_a_token(quote: char, s: Seq<char>, b: Seq<char>)
    requires
        quote == '"' || quote == '\'',
        inside(s, quote),
    ensures
        ({
            let token = seq![quote] + s + seq![quote];
            lexer::tokens_of(token + b) == (match lexer::tokens_of(b) {
                Ok(rest) => Ok::<Seq<Seq<char>>, Seq<char>>(seq![token] + rest),
                Err(why) => Err(why),
            })
        }),
{
    let token = seq![quote] + s + seq![quote];
    let whole = token + b;
    lemma_string_close(seq![quote], s, quote, b);
    assert(seq![quote] + s + seq![quote] + b == whole);
    assert(whole[0] == quote);
    assert(whole.subrange(0, token.len() as int) == token);
    lemma_first(token, b);
}

proof fn lemma_string_open(a: Seq<char>, s: Seq<char>, quote: char)
    requires
        inside(s, quote),
        quote != '\\',
    ensures
        lexer::string_close(a + s, quote, a.len() as int) is None,
    decreases s.len(),
{
    let whole = a + s;
    if s.len() > 0 {
        assert(whole[a.len() as int] == s[0]);
        if s[0] == '\\' {
            assert((a + s.take(2)) + s.skip(2) == whole);
            lemma_string_open(a + s.take(2), s.skip(2), quote);
        } else {
            assert((a + s.take(1)) + s.skip(1) == whole);
            lemma_string_open(a + s.take(1), s.skip(1), quote);
        }
    }
}

/// A string that is not closed keeps a text from having tokens.
pub proof fn law_a_string_has_to_close(quote: char, s: Seq<char>)
    requires
        quote == '"' || quote == '\'',
        inside(s, quote),
    ensures
        lexer::tokens_of(seq![quote] + s) == Err::<Seq<Seq<char>>, Seq<char>>(
            "a string that never closes"@,
        ),
{
    let whole = seq![quote] + s;
    lemma_string_open(seq![quote], s, quote);
    assert(whole[0] == quote);
}

proof fn lemma_comment_open(s: Seq<char>, at: int)
    requires
        0 <= at,
        forall|i: int| at <= i < s.len() - 1 ==> !(#[trigger] s[i] == '*' && s[i + 1] == '/'),
    ensures
        lexer::comment_close(s, at) is None,
    decreases s.len() - at,
{
    if at + 1 < s.len() {
        assert(!(s[at] == '*' && s[at + 1] == '/'));
        lemma_comment_open(s, at + 1);
    }
}

/// A comment from `/*` that no `*/` closes keeps a text from having tokens.
pub proof fn law_a_comment_has_to_close(comment: Seq<char>)
    requires
        forall|i: int|
            0 <= i < comment.len() - 1 ==> !(#[trigger] comment[i] == '*' && comment[i + 1] == '/'),
    ensures
        lexer::tokens_of(seq!['/', '*'] + comment) == Err::<Seq<Seq<char>>, Seq<char>>(
            "a comment that never closes"@,
        ),
{
    let whole = seq!['/', '*'] + comment;
    assert(whole[0] == '/' && whole[1] == '*');
    assert forall|i: int| 2 <= i < whole.len() - 1 implies !(#[trigger] whole[i] == '*' && whole[i
        + 1] == '/') by {
        assert(whole[i] == comment[i - 2] && whole[i + 1] == comment[i - 1]);
    }
    lemma_comment_open(whole, 2);
}

/// Any other character is a token by itself.
pub proof fn law_any_other_character_is_a_token(c: char, b: Seq<char>)
    requires
        !text::whitespace(c),
        !of_a_word(c),
        c != '"' && c != '\'',
        c == '/' && b.len() > 0 ==> b[0] != '/' && b[0] != '*',
    ensures
        lexer::tokens_of(seq![c] + b) == (match lexer::tokens_of(b) {
            Ok(rest) => Ok::<Seq<Seq<char>>, Seq<char>>(seq![seq![c]] + rest),
            Err(why) => Err(why),
        }),
{
    let whole = seq![c] + b;
    assert(whole[0] == c);
    if b.len() > 0 {
        assert(whole[1] == b[0]);
    }
    lemma_first(seq![c], b);
}

/// A comment from `//` that no line break ends says nothing either, and no text has no
/// tokens.
pub proof fn law_nothing_has_no_tokens(comment: Seq<char>)
    requires
        !comment.contains('\n'),
    ensures
        lexer::tokens_of(Seq::empty()) == Ok::<Seq<Seq<char>>, Seq<char>>(Seq::empty()),
        lexer::tokens_of(seq!['/', '/'] + comment) == Ok::<Seq<Seq<char>>, Seq<char>>(
            Seq::empty(),
        ),
{
    let whole = seq!['/', '/'] + comment;
    text::lemma_index_of(whole, '\n', 0);
    let end = text::index_of(whole, '\n', 0);
    if end < whole.len() {
        assert(whole[end] == '\n');
        assert(comment[end - 2] == '\n');
    }
    assert(whole[0] == '/' && whole[1] == '/');
    assert(lexer::tokens_from(whole, whole.len() as int) == Ok::<Seq<Seq<char>>, Seq<char>>(
        Seq::empty(),
    ));
}

/// A number in decimal is its digits: one below ten its own, any other those of its
/// tenth, and one more.
pub proof fn law_numbers_in_decimal(n: nat, digit: nat)
    requires
        digit < 10,
    ensures
        text::decimal(digit) == seq![(('0' as u32) + digit) as char],
        n > 0 ==> text::decimal(10 * n + digit) == text::decimal(n).push(
            (('0' as u32) + digit) as char,
        ),
{
    if n > 0 {
        assert((10 * n + digit) / 10 == n);
        assert((10 * n + digit) % 10 == digit);
    }
}

/// Whether a text is decimal digits.
pub open spec fn all_digits(s: Seq<char>) -> bool {
    forall|i: int| 0 <= i < s.len() ==> '0' <= #[trigger] s[i] <= '9'
}

/// A text that is no number is none: the empty one, and one with a character that is no
/// digit, but for a `+` before the digits.
pub proof fn law_what_is_no_number(s: Seq<char>)
    ensures
        s.len() == 0 ==> text::number(s) is None,
        !all_digits(s) && !(s.len() > 0 && s[0] == '+') ==> text::number(s) is None,
        s.len() > 0 && s[0] == '+' && !all_digits(s.drop_first()) ==> text::number(s) is None,
{
    let rest = s.drop_first();
    if s.len() > 0 && !all_digits(rest) {
        let i = choose|i: int| 0 <= i < rest.len() && !('0' <= #[trigger] rest[i] <= '9');
        assert(!text::digit(rest[i]));
    }
    if !all_digits(s) {
        let i = choose|i: int| 0 <= i < s.len() && !('0' <= #[trigger] s[i] <= '9');
        assert(!text::digit(s[i]));
    }
}

/// A digit is a number; a digit after a number makes it ten times as much and the digit,
/// if that is no more than a `u32` holds; and a `+` before digits says nothing.
pub proof fn law_what_digits_write(s: Seq<char>, c: char)
    requires
        all_digits(s),
        '0' <= c <= '9',
    ensures
        text::number(seq![c]) == Some((c as u32 - '0' as u32) as u32),
        s.len() > 0 ==> text::number(s.push(c)) == (match text::number(s) {
            Some(n) => if 10 * n + (c as u32 - '0' as u32) <= u32::MAX {
                Some((10 * n + (c as u32 - '0' as u32)) as u32)
            } else {
                None
            },
            None => None,
        }),
        text::number(seq!['+'] + s) == text::number(s),
{
    let one = seq![c];
    assert(one.drop_last() == Seq::<char>::empty());
    assert(text::digits_value(one.drop_last()) == 0);
    assert(one.last() == c);
    assert(text::digits_value(one) == c as nat - 48);
    assert forall|i: int| 0 <= i < one.len() implies text::digit(#[trigger] one[i]) by {}
    let more = s.push(c);
    assert(more.drop_last() == s);
    assert(more.last() == c);
    assert forall|i: int| 0 <= i < s.len() implies text::digit(#[trigger] s[i]) by {}
    assert forall|i: int| 0 <= i < more.len() implies text::digit(#[trigger] more[i]) by {
        if i < s.len() {
            assert(more[i] == s[i]);
        }
    }
    if s.len() > 0 {
        assert(more[0] == s[0]);
        assert('0' <= s[0] <= '9');
    }
    assert((seq!['+'] + s).drop_first() == s);
}

/// Whether all characters of a text are white space.
pub open spec fn blank(s: Seq<char>) -> bool {
    forall|i: int| 0 <= i < s.len() ==> text::whitespace(#[trigger] s[i])
}

/// Whether a text neither begins nor ends with white space.
pub open spec fn bare(s: Seq<char>) -> bool {
    s.len() > 0 ==> !text::whitespace(s[0]) && !text::whitespace(s.last())
}

proof fn lemma_trim_start(a: Seq<char>, s: Seq<char>)
    requires
        blank(a),
        s.len() > 0 ==> !text::whitespace(s[0]),
    ensures
        text::trim_start(a + s) == s,
    decreases a.len(),
{
    if a.len() > 0 {
        assert(text::whitespace(a[0]));
        assert((a + s)[0] == a[0]);
        assert((a + s).drop_first() == a.drop_first() + s);
        assert forall|i: int| 0 <= i < a.drop_first().len() implies text::whitespace(
            #[trigger] a.drop_first()[i],
        ) by {
            assert(text::whitespace(a[i + 1]));
        }
        lemma_trim_start(a.drop_first(), s);
    } else {
        assert(a + s == s);
    }
}

proof fn lemma_trim_end(s: Seq<char>, b: Seq<char>)
    requires
        blank(b),
        s.len() > 0 ==> !text::whitespace(s.last()),
    ensures
        text::trim_end(s + b) == s,
    decreases b.len(),
{
    if b.len() > 0 {
        assert(text::whitespace(b[b.len() - 1]));
        assert((s + b).last() == b.last());
        assert((s + b).drop_last() == s + b.drop_last());
        assert forall|i: int| 0 <= i < b.drop_last().len() implies text::whitespace(
            #[trigger] b.drop_last()[i],
        ) by {
            assert(text::whitespace(b[i]));
        }
        lemma_trim_end(s, b.drop_last());
    } else {
        assert(s + b == s);
    }
}

/// Trimming takes away the white space around a text, all of it, and nothing else.
pub proof fn law_trimming_takes_white_space_alone(a: Seq<char>, s: Seq<char>, b: Seq<char>)
    requires
        blank(a),
        blank(b),
        bare(s),
    ensures
        text::trim(a + s + b) == s,
{
    if s.len() > 0 {
        assert(a + s + b == a + (s + b));
        assert((s + b)[0] == s[0]);
        lemma_trim_start(a, s + b);
        lemma_trim_end(s, b);
    } else {
        let all = a + b;
        assert(a + s + b == all + s);
        assert forall|i: int| 0 <= i < all.len() implies text::whitespace(#[trigger] all[i]) by {
            if i < a.len() {
                assert(text::whitespace(a[i]));
            } else {
                assert(text::whitespace(b[i - a.len()]));
            }
        }
        lemma_trim_start(all, s);
    }
}

/// The media types of protobuf are these three, with ASCII letters of either case; a
/// stream without one has no mark.
pub proof fn law_the_media_types(media_type: Seq<char>)
    requires
        bare(media_type),
        !media_type.contains(';'),
    ensures
        protobuf::marked(Some(media_type)) <==> {
            ||| text::same_but_case(media_type, "application/protobuf"@)
            ||| text::same_but_case(media_type, "application/x-protobuf"@)
            ||| text::same_but_case(media_type, "application/vnd.google.protobuf"@)
        },
        !protobuf::marked(None),
{
    text::lemma_index_of(media_type, ';', 0);
    let end = text::index_of(media_type, ';', 0);
    if end < media_type.len() {
        assert(media_type[end] == ';');
    }
    assert(media_type.take(end) == media_type);
    let none = Seq::<char>::empty();
    law_trimming_takes_white_space_alone(none, media_type, none);
    assert(none + media_type + none == media_type);
}

/// White space around a media type says nothing.
pub proof fn law_space_around_a_media_type_says_nothing(
    a: Seq<char>,
    media_type: Seq<char>,
    b: Seq<char>,
)
    requires
        blank(a),
        blank(b),
        bare(media_type),
        !media_type.contains(';'),
    ensures
        protobuf::marked(Some(a + media_type + b)) == protobuf::marked(Some(media_type)),
{
    let whole = a + media_type + b;
    text::lemma_index_of(whole, ';', 0);
    let end = text::index_of(whole, ';', 0);
    if end < whole.len() {
        assert(whole[end] == ';');
        if end < a.len() {
            assert(text::whitespace(a[end]));
        } else if end < a.len() + media_type.len() {
            assert(media_type[end - a.len()] == ';');
        } else {
            assert(text::whitespace(b[end - a.len() - media_type.len()]));
        }
    }
    assert(whole.take(end) == whole);
    law_trimming_takes_white_space_alone(a, media_type, b);
    text::lemma_index_of(media_type, ';', 0);
    let other = text::index_of(media_type, ';', 0);
    if other < media_type.len() {
        assert(media_type[other] == ';');
    }
    assert(media_type.take(other) == media_type);
    let none = Seq::<char>::empty();
    law_trimming_takes_white_space_alone(none, media_type, none);
    assert(none + media_type + none == media_type);
}

/// Two texts are one but for case exactly when they are as long and each character of
/// the one is that of the other, or the same ASCII letter in the other case.
pub proof fn law_only_ascii_letters_have_two_cases(a: Seq<char>, b: Seq<char>)
    ensures
        text::same_but_case(a, b) <==> a.len() == b.len() && forall|i: int|
            #![trigger a[i]]
            #![trigger b[i]]
            0 <= i < a.len() ==> {
                ||| a[i] == b[i]
                ||| 'A' <= a[i] <= 'Z' && b[i] as u32 == a[i] as u32 + 32
                ||| 'A' <= b[i] <= 'Z' && a[i] as u32 == b[i] as u32 + 32
            },
{
    if a.len() == b.len() {
        assert forall|i: int| 0 <= i < a.len() implies (text::lower(#[trigger] a[i])
            == text::lower(b[i]) <==> {
            ||| a[i] == b[i]
            ||| 'A' <= a[i] <= 'Z' && b[i] as u32 == a[i] as u32 + 32
            ||| 'A' <= b[i] <= 'Z' && a[i] as u32 == b[i] as u32 + 32
        }) by {}
    }
}

/// An empty reference asks for the bare contract, and one without a `#` for nothing.
pub proof fn law_references_without_a_message(reference: Seq<char>)
    requires
        bare(reference),
        !reference.contains('#'),
    ensures
        protobuf::asked(reference) == (if reference.len() == 0 {
            Ok::<Option<(Seq<char>, Seq<char>)>, Seq<char>>(None)
        } else {
            Err(text::debug_text(reference) + " is not file.proto#package.Message"@)
        }),
{
    let none = Seq::<char>::empty();
    law_trimming_takes_white_space_alone(none, reference, none);
    assert(none + reference + none == reference);
    text::lemma_index_of(reference, '#', 0);
    let mark = text::index_of(reference, '#', 0);
    if mark < reference.len() {
        assert(reference[mark] == '#');
    }
}

} // verus!
