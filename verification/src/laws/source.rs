//! What holds of the tokens of a text.
use crate::lexer;
use crate::text;
use vstd::prelude::*;

verus! {

/// No token is empty.
pub proof fn law_no_token_is_empty(source: Seq<char>)
    ensures
        lexer::tokens_of(source) matches Ok(tokens) ==> forall|i: int|
            0 <= i < tokens.len() ==> (#[trigger] tokens[i]).len() > 0,
{
    lemma_no_token_is_empty(source, 0);
}

proof fn lemma_no_token_is_empty(source: Seq<char>, at: int)
    requires
        0 <= at,
    ensures
        lexer::tokens_from(source, at) matches Ok(tokens) ==> forall|i: int|
            0 <= i < tokens.len() ==> (#[trigger] tokens[i]).len() > 0,
    decreases source.len() - at,
{
    if at < source.len() {
        lexer::lemma_piece(source, at);
        if let Ok((_, next)) = lexer::piece(source, at) {
            lemma_no_token_is_empty(source, next);
        }
    }
}

proof fn lemma_word_end_after(a: Seq<char>, b: Seq<char>, at: int)
    requires
        0 <= at <= b.len(),
    ensures
        lexer::word_end(a + b, a.len() + at) == a.len() + lexer::word_end(b, at),
    decreases b.len() - at,
{
    if at < b.len() {
        assert((a + b)[a.len() + at] == b[at]);
        lemma_word_end_after(a, b, at + 1);
    }
}

proof fn lemma_index_of_after(a: Seq<char>, b: Seq<char>, c: char, at: int)
    requires
        0 <= at <= b.len(),
    ensures
        text::index_of(a + b, c, a.len() + at) == a.len() + text::index_of(b, c, at),
    decreases b.len() - at,
{
    if at < b.len() {
        assert((a + b)[a.len() + at] == b[at]);
        lemma_index_of_after(a, b, c, at + 1);
    }
}

proof fn lemma_comment_close_after(a: Seq<char>, b: Seq<char>, at: int)
    requires
        0 <= at,
    ensures
        lexer::comment_close(a + b, a.len() + at) == (match lexer::comment_close(b, at) {
            Some(close) => Some(a.len() + close),
            None => None,
        }),
    decreases b.len() - at,
{
    if at + 1 < b.len() {
        assert((a + b)[a.len() + at] == b[at]);
        assert((a + b)[a.len() + at + 1] == b[at + 1]);
        lemma_comment_close_after(a, b, at + 1);
    }
}

proof fn lemma_string_close_after(a: Seq<char>, b: Seq<char>, quote: char, at: int)
    requires
        0 <= at,
    ensures
        lexer::string_close(a + b, quote, a.len() + at) == (match lexer::string_close(
            b,
            quote,
            at,
        ) {
            Some(close) => Some(a.len() + close),
            None => None,
        }),
    decreases b.len() + 1 - at,
{
    if at < b.len() {
        assert((a + b)[a.len() + at] == b[at]);
        if b[at] != quote {
            if b[at] == '\\' {
                lemma_string_close_after(a, b, quote, at + 2);
            } else {
                lemma_string_close_after(a, b, quote, at + 1);
            }
        }
    }
}

/// A piece of the second of two texts that are joined.
proof fn lemma_piece_after(a: Seq<char>, b: Seq<char>, at: int)
    requires
        0 <= at < b.len(),
    ensures
        lexer::piece(a + b, a.len() + at) == (match lexer::piece(b, at) {
            Ok((token, next)) => Ok((token, a.len() + next)),
            Err(why) => Err(why),
        }),
{
    assert((a + b)[a.len() + at] == b[at]);
    if at + 1 < b.len() {
        assert((a + b)[a.len() + at + 1] == b[at + 1]);
    }
    lemma_word_end_after(a, b, at);
    lemma_index_of_after(a, b, '\n', at);
    lemma_comment_close_after(a, b, at + 2);
    lemma_string_close_after(a, b, b[at], at + 1);
    lexer::lemma_piece(b, at);
    if let Ok((Some(token), next)) = lexer::piece(b, at) {
        assert((a + b).subrange(a.len() + at, a.len() + next) == b.subrange(at, next));
    }
}

/// The tokens of the second of two texts that are joined.
pub proof fn lemma_tokens_after(a: Seq<char>, b: Seq<char>, at: int)
    requires
        0 <= at <= b.len(),
    ensures
        lexer::tokens_from(a + b, a.len() + at) == lexer::tokens_from(b, at),
    decreases b.len() - at,
{
    if at < b.len() {
        lexer::lemma_piece(b, at);
        lemma_piece_after(a, b, at);
        if let Ok((_, next)) = lexer::piece(b, at) {
            lemma_tokens_after(a, b, next);
        }
    }
}

proof fn lemma_word_end_before(a: Seq<char>, b: Seq<char>, at: int)
    requires
        0 <= at <= a.len(),
        b.len() > 0,
        b[0] == '\n',
    ensures
        lexer::word_end(a + b, at) == lexer::word_end(a, at),
    decreases a.len() - at,
{
    if at < a.len() {
        assert((a + b)[at] == a[at]);
        lemma_word_end_before(a, b, at + 1);
    } else {
        assert((a + b)[at] == b[0]);
    }
}

proof fn lemma_line_end_before(a: Seq<char>, b: Seq<char>, at: int)
    requires
        0 <= at <= a.len(),
        b.len() > 0,
        b[0] == '\n',
    ensures
        text::index_of(a + b, '\n', at) == text::index_of(a, '\n', at),
    decreases a.len() - at,
{
    if at < a.len() {
        assert((a + b)[at] == a[at]);
        lemma_line_end_before(a, b, at + 1);
    } else {
        assert((a + b)[at] == b[0]);
    }
}

proof fn lemma_comment_close_before(a: Seq<char>, b: Seq<char>, at: int)
    requires
        0 <= at,
        lexer::comment_close(a, at) is Some,
    ensures
        lexer::comment_close(a + b, at) == lexer::comment_close(a, at),
    decreases a.len() - at,
{
    assert((a + b)[at] == a[at]);
    assert((a + b)[at + 1] == a[at + 1]);
    if !(a[at] == '*' && a[at + 1] == '/') {
        lemma_comment_close_before(a, b, at + 1);
    }
}

proof fn lemma_string_close_before(a: Seq<char>, b: Seq<char>, quote: char, at: int)
    requires
        0 <= at,
        lexer::string_close(a, quote, at) is Some,
    ensures
        lexer::string_close(a + b, quote, at) == lexer::string_close(a, quote, at),
    decreases a.len() + 1 - at,
{
    assert((a + b)[at] == a[at]);
    if a[at] != quote {
        if a[at] == '\\' {
            lemma_string_close_before(a, b, quote, at + 2);
        } else {
            lemma_string_close_before(a, b, quote, at + 1);
        }
    }
}

/// A piece of a text that a line break follows.
proof fn lemma_piece_before(a: Seq<char>, b: Seq<char>, at: int)
    requires
        0 <= at < a.len(),
        b.len() > 0,
        b[0] == '\n',
        lexer::piece(a, at) is Ok,
    ensures
        lexer::piece(a + b, at) == lexer::piece(a, at),
{
    assert((a + b)[at] == a[at]);
    if at + 1 < a.len() {
        assert((a + b)[at + 1] == a[at + 1]);
    } else {
        assert((a + b)[at + 1] == b[0]);
    }
    lemma_word_end_before(a, b, at);
    lemma_line_end_before(a, b, at);
    if lexer::comment_close(a, at + 2) is Some {
        lemma_comment_close_before(a, b, at + 2);
    }
    if lexer::string_close(a, a[at], at + 1) is Some {
        lemma_string_close_before(a, b, a[at], at + 1);
    }
    lexer::lemma_piece(a, at);
    if let Ok((Some(token), next)) = lexer::piece(a, at) {
        assert((a + b).subrange(at, next) == a.subrange(at, next));
    }
}

proof fn lemma_tokens_before(a: Seq<char>, b: Seq<char>, at: int)
    requires
        0 <= at <= a.len(),
        b.len() > 0,
        b[0] == '\n',
        lexer::tokens_from(a, at) is Ok,
    ensures
        lexer::tokens_from(a + b, at) == lexer::preceded(
            lexer::tokens_from(a, at)->Ok_0,
            lexer::tokens_from(a + b, a.len() as int),
        ),
    decreases a.len() - at,
{
    let tokens = lexer::tokens_from(a, at)->Ok_0;
    let after = lexer::tokens_from(a + b, a.len() as int);
    if at < a.len() {
        lexer::lemma_piece(a, at);
        lemma_piece_before(a, b, at);
        if let Ok((token, next)) = lexer::piece(a, at) {
            lemma_tokens_before(a, b, next);
            let rest = lexer::tokens_from(a, next)->Ok_0;
            if let (Some(token), Ok(after)) = (token, after) {
                assert(seq![token] + (rest + after) == (seq![token] + rest) + after);
            }
        }
    } else if let Ok(after) = after {
        assert(Seq::<Seq<char>>::empty() + after == after);
    }
}

/// A line break parts a text: its tokens are those of what stands before, and
/// then those of what stands after, wherever what stands before has tokens.
pub proof fn law_line_break_parts(a: Seq<char>, b: Seq<char>)
    requires
        lexer::tokens_of(a) is Ok,
    ensures
        lexer::tokens_of(a.push('\n') + b) == lexer::preceded(
            lexer::tokens_of(a)->Ok_0,
            lexer::tokens_of(b),
        ),
{
    let line = seq!['\n'] + b;
    assert(a.push('\n') + b == a + line);
    lemma_tokens_before(a, line, 0);
    assert((a + line)[a.len() as int] == '\n');
    assert(lexer::piece(a + line, a.len() as int) == Ok::<(Option<Seq<char>>, int), Seq<char>>(
        (None, a.len() as int + 1),
    ));
    assert(lexer::tokens_from(a + line, a.len() as int) == lexer::tokens_from(
        a + line,
        a.len() as int + 1,
    ));
    lemma_tokens_after(a.push('\n'), b, 0);
}

/// White space before a text says nothing.
pub proof fn law_white_space_says_nothing(c: char, b: Seq<char>)
    requires
        text::whitespace(c),
    ensures
        lexer::tokens_of(seq![c] + b) == lexer::tokens_of(b),
{
    lemma_tokens_after(seq![c], b, 0);
}

/// A comment from `//` to the end of its line says nothing.
pub proof fn law_line_comment_says_nothing(comment: Seq<char>, b: Seq<char>)
    requires
        !comment.contains('\n'),
    ensures
        lexer::tokens_of((seq!['/', '/'] + comment).push('\n') + b) == lexer::tokens_of(b),
{
    let a = seq!['/', '/'] + comment;
    text::lemma_index_of(a, '\n', 0);
    let end = text::index_of(a, '\n', 0);
    if end < a.len() {
        assert(a[end] == '\n');
        assert(comment[end - 2] == '\n');
    }
    assert(lexer::tokens_from(a, a.len() as int) == Ok::<Seq<Seq<char>>, Seq<char>>(Seq::empty()));
    assert(lexer::piece(a, 0) == Ok::<(Option<Seq<char>>, int), Seq<char>>(
        (None, a.len() as int),
    ));
    law_line_break_parts(a, b);
    if let Ok(tokens) = lexer::tokens_of(b) {
        assert(Seq::<Seq<char>>::empty() + tokens == tokens);
    }
}

proof fn lemma_comment_close_is(source: Seq<char>, at: int, close: int)
    requires
        0 <= at <= close,
        close + 1 < source.len(),
        source[close] == '*',
        source[close + 1] == '/',
        forall|i: int| at <= i < close ==> !(#[trigger] source[i] == '*' && source[i + 1] == '/'),
    ensures
        lexer::comment_close(source, at) == Some(close),
    decreases close - at,
{
    if at < close {
        lemma_comment_close_is(source, at + 1, close);
    }
}

/// A comment from `/*` to the first `*/` says nothing.
pub proof fn law_block_comment_says_nothing(comment: Seq<char>, b: Seq<char>)
    requires
        forall|i: int|
            0 <= i < comment.len() - 1 ==> !(#[trigger] comment[i] == '*' && comment[i + 1] == '/'),
    ensures
        lexer::tokens_of(seq!['/', '*'] + comment + seq!['*', '/'] + b) == lexer::tokens_of(b),
{
    let a = seq!['/', '*'] + comment + seq!['*', '/'];
    let n = comment.len() as int;
    assert forall|i: int| 2 <= i < n + 2 implies !(#[trigger] (a + b)[i] == '*' && (a + b)[i + 1]
        == '/') by {
        assert((a + b)[i] == comment[i - 2]);
        if i + 1 < n + 2 {
            assert((a + b)[i + 1] == comment[i - 1]);
        } else {
            assert((a + b)[i + 1] == '*');
        }
    }
    assert((a + b)[n + 2] == '*' && (a + b)[n + 3] == '/');
    lemma_comment_close_is(a + b, 2, n + 2);
    assert((a + b)[0] == '/' && (a + b)[1] == '*');
    assert(lexer::piece(a + b, 0) == Ok::<(Option<Seq<char>>, int), Seq<char>>(
        (None, a.len() as int),
    ));
    lemma_tokens_after(a, b, 0);
}

/// Tokens written out with a space between them.
pub open spec fn written_out(tokens: Seq<Seq<char>>) -> Seq<char>
    decreases tokens.len(),
{
    if tokens.len() == 0 {
        Seq::empty()
    } else if tokens.len() == 1 {
        tokens[0]
    } else {
        tokens[0].push(' ') + written_out(tokens.drop_first())
    }
}

/// Whether a token that ends the text or is followed by a space is read as itself.
spec fn reads_as_itself(token: Seq<char>) -> bool {
    &&& token.len() > 0
    &&& forall|b: Seq<char>|
        b.len() == 0 || b[0] == ' ' ==> #[trigger] lexer::piece(token + b, 0) == Ok::<
            (Option<Seq<char>>, int),
            Seq<char>,
        >((Some(token), token.len() as int))
}

proof fn lemma_string_close_same(a: Seq<char>, b: Seq<char>, quote: char, at: int, close: int)
    requires
        0 <= at <= close < b.len(),
        lexer::string_close(a, quote, at) == Some(close),
        forall|i: int| 0 <= i <= close ==> a[i] == b[i],
    ensures
        lexer::string_close(b, quote, at) == Some(close),
    decreases close - at,
{
    if a[at] != quote {
        let next = if a[at] == '\\' {
            at + 2
        } else {
            at + 1
        };
        lexer::lemma_string_close(a, quote, next);
        lemma_string_close_same(a, b, quote, next, close);
    }
}

proof fn lemma_word_end_same(a: Seq<char>, b: Seq<char>, at: int, end: int)
    requires
        0 <= at <= end <= a.len(),
        end <= b.len(),
        lexer::word_end(a, at) == end,
        forall|i: int| 0 <= i < end ==> a[i] == b[i],
        end < b.len() ==> !lexer::word_char(b[end]),
    ensures
        lexer::word_end(b, at) == end,
    decreases end - at,
{
    if at < end {
        assert(a[at] == b[at]);
        lexer::lemma_word_end(a, at + 1);
        lemma_word_end_same(a, b, at + 1, end);
    }
}

/// The token that a text begins with is read as itself.
proof fn lemma_first_token(source: Seq<char>, token: Seq<char>, next: int)
    requires
        source.len() > 0,
        lexer::piece(source, 0) == Ok::<(Option<Seq<char>>, int), Seq<char>>((Some(token), next)),
    ensures
        reads_as_itself(token),
{
    lexer::lemma_piece(source, 0);
    let c = source[0];
    assert(token =~= source.take(next));
    assert forall|b: Seq<char>| b.len() == 0 || b[0] == ' ' implies #[trigger] lexer::piece(
        token + b,
        0,
    ) == Ok::<(Option<Seq<char>>, int), Seq<char>>((Some(token), token.len() as int)) by {
        let x = token + b;
        assert forall|i: int| 0 <= i < next implies x[i] == source[i] by {}
        if next < x.len() {
            assert(x[next] == b[0]);
        }
        if c == '"' || c == '\'' {
            lexer::lemma_string_close(source, c, 1);
            lemma_string_close_same(source, x, c, 1, next - 1);
        } else if lexer::word_char(c) {
            lemma_word_end_same(source, x, 0, next);
        }
        assert(x.subrange(0, next) =~= token);
    }
}

proof fn lemma_tokens_read_as_themselves(source: Seq<char>, at: int)
    requires
        0 <= at,
    ensures
        lexer::tokens_from(source, at) matches Ok(tokens) ==> forall|i: int|
            0 <= i < tokens.len() ==> reads_as_itself(#[trigger] tokens[i]),
    decreases source.len() - at,
{
    if at < source.len() {
        lexer::lemma_piece(source, at);
        if let Ok((token, next)) = lexer::piece(source, at) {
            lemma_tokens_read_as_themselves(source, next);
            if let Some(token) = token {
                let rest = source.skip(at);
                assert(source.take(at) + rest == source);
                lemma_piece_after(source.take(at), rest, 0);
                if let Ok((Some(_), end)) = lexer::piece(rest, 0) {
                    lemma_first_token(rest, token, end);
                }
            }
        }
    }
}

proof fn lemma_written_out(tokens: Seq<Seq<char>>)
    requires
        forall|i: int| 0 <= i < tokens.len() ==> reads_as_itself(#[trigger] tokens[i]),
    ensures
        lexer::tokens_of(written_out(tokens)) == Ok::<Seq<Seq<char>>, Seq<char>>(tokens),
    decreases tokens.len(),
{
    if tokens.len() == 0 {
        assert(tokens =~= Seq::<Seq<char>>::empty());
    } else {
        let first = tokens[0];
        let rest = tokens.drop_first();
        let b = if tokens.len() == 1 {
            Seq::empty()
        } else {
            seq![' '] + written_out(rest)
        };
        assert(reads_as_itself(first));
        assert(written_out(tokens) =~= first + b);
        assert(lexer::piece(first + b, 0) == Ok::<(Option<Seq<char>>, int), Seq<char>>(
            (Some(first), first.len() as int),
        ));
        assert forall|i: int| 0 <= i < rest.len() implies reads_as_itself(#[trigger] rest[i]) by {
            assert(rest[i] == tokens[i + 1]);
        }
        lemma_written_out(rest);
        lemma_tokens_after(first, b, 0);
        if tokens.len() > 1 {
            law_white_space_says_nothing(' ', written_out(rest));
        } else {
            assert(rest =~= Seq::<Seq<char>>::empty());
        }
        assert(seq![first] + rest =~= tokens);
    }
}

/// The tokens of a text, written out with a space between them, read as
/// themselves.
pub proof fn law_tokens_read_as_themselves(source: Seq<char>)
    ensures
        lexer::tokens_of(source) matches Ok(tokens) ==> lexer::tokens_of(written_out(tokens))
            == Ok::<Seq<Seq<char>>, Seq<char>>(tokens),
{
    lemma_tokens_read_as_themselves(source, 0);
    if let Ok(tokens) = lexer::tokens_of(source) {
        lemma_written_out(tokens);
    }
}

} // verus!
