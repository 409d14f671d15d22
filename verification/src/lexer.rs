//! The text of a `.proto` file as its tokens: names, numbers, strings and the
//! punctuation that matters, white space and comments gone.
use crate::text;
use vstd::prelude::*;
use vstd::string::*;

verus! {

/// Whether a character belongs to a name or a number.
pub open spec fn word_char(c: char) -> bool {
    c == '_' || c == '.' || c == '-' || text::alphanumeric(c)
}

/// The index of the first character at or after `at` that belongs to no name
/// or number, the length where there is none.
pub open spec fn word_end(source: Seq<char>, at: int) -> int
    decreases source.len() - at,
{
    if 0 <= at < source.len() && word_char(source[at]) {
        word_end(source, at + 1)
    } else {
        at
    }
}

/// The index of the `*/` at or after `at`, if there is one.
pub open spec fn comment_close(source: Seq<char>, at: int) -> Option<int>
    decreases source.len() - at,
{
    if at < 0 || at + 1 >= source.len() {
        None
    } else if source[at] == '*' && source[at + 1] == '/' {
        Some(at)
    } else {
        comment_close(source, at + 1)
    }
}

/// The index of the `quote` that closes the string whose characters go on at
/// `at`, if there is one; a backslash takes the character after it along.
pub open spec fn string_close(source: Seq<char>, quote: char, at: int) -> Option<int>
    decreases source.len() + 1 - at,
{
    if at < 0 || at >= source.len() {
        None
    } else if source[at] == quote {
        Some(at)
    } else if source[at] == '\\' {
        string_close(source, quote, at + 2)
    } else {
        string_close(source, quote, at + 1)
    }
}

/// The piece of text that begins at `at`: the token it is, if it is one, and
/// where the next piece begins.
pub open spec fn piece(source: Seq<char>, at: int) -> Result<(Option<Seq<char>>, int), Seq<char>> {
    let c = source[at];
    let after = if at + 1 < source.len() {
        Some(source[at + 1])
    } else {
        None
    };
    if text::whitespace(c) {
        Ok((None, at + 1))
    } else if c == '/' && after == Some('/') {
        Ok((None, text::index_of(source, '\n', at)))
    } else if c == '/' && after == Some('*') {
        match comment_close(source, at + 2) {
            Some(close) => Ok((None, close + 2)),
            None => Err("a comment that never closes"@),
        }
    } else if c == '"' || c == '\'' {
        match string_close(source, c, at + 1) {
            Some(close) => Ok((Some(source.subrange(at, close + 1)), close + 1)),
            None => Err("a string that never closes"@),
        }
    } else if word_char(c) {
        Ok((Some(source.subrange(at, word_end(source, at))), word_end(source, at)))
    } else {
        Ok((Some(seq![c]), at + 1))
    }
}

/// The tokens of the text from `at` on, or what keeps it from having any.
pub open spec fn tokens_from(source: Seq<char>, at: int) -> Result<Seq<Seq<char>>, Seq<char>>
    decreases source.len() - at,
{
    if at < 0 || at >= source.len() {
        Ok(Seq::empty())
    } else {
        proof {
            lemma_piece(source, at);
        }
        match piece(source, at) {
            Err(why) => Err(why),
            Ok((token, next)) => match tokens_from(source, next) {
                Err(why) => Err(why),
                Ok(rest) => Ok(
                    match token {
                        Some(token) => seq![token] + rest,
                        None => rest,
                    },
                ),
            },
        }
    }
}

/// The tokens of a text, or what keeps it from having any.
pub open spec fn tokens_of(source: Seq<char>) -> Result<Seq<Seq<char>>, Seq<char>> {
    tokens_from(source, 0)
}

/// A word ends in the text.
pub proof fn lemma_word_end(source: Seq<char>, at: int)
    requires
        0 <= at <= source.len(),
    ensures
        at <= word_end(source, at) <= source.len(),
    decreases source.len() - at,
{
    if at < source.len() && word_char(source[at]) {
        lemma_word_end(source, at + 1);
    }
}

proof fn lemma_comment_close(source: Seq<char>, at: int)
    requires
        0 <= at,
    ensures
        comment_close(source, at) matches Some(close) ==> at <= close && close + 2 <= source.len(),
    decreases source.len() - at,
{
    if at + 1 < source.len() && !(source[at] == '*' && source[at + 1] == '/') {
        lemma_comment_close(source, at + 1);
    }
}

/// The quote that closes a string is in the text.
pub proof fn lemma_string_close(source: Seq<char>, quote: char, at: int)
    requires
        0 <= at,
    ensures
        string_close(source, quote, at) matches Some(close) ==> at <= close < source.len(),
    decreases source.len() + 1 - at,
{
    if at < source.len() && source[at] != quote {
        if source[at] == '\\' {
            lemma_string_close(source, quote, at + 2);
        } else {
            lemma_string_close(source, quote, at + 1);
        }
    }
}

/// A piece of text has at least one character, all of them in the text, and a
/// token is not empty.
pub proof fn lemma_piece(source: Seq<char>, at: int)
    requires
        0 <= at < source.len(),
    ensures
        piece(source, at) matches Ok((token, next)) ==> {
            &&& at < next <= source.len()
            &&& token matches Some(token) ==> token.len() > 0
        },
{
    text::lemma_index_of(source, '\n', at);
    lemma_comment_close(source, at + 2);
    lemma_string_close(source, source[at], at + 1);
    if word_char(source[at]) {
        lemma_word_end(source, at + 1);
    }
}

/// Whether `c` belongs to a name or a number.
fn is_word_char(c: char) -> (answer: bool)
    ensures
        answer == word_char(c),
{
    c == '_' || c == '.' || c == '-' || text::is_alphanumeric(c)
}

/// Where the name or number that begins at `from` ends.
fn find_word_end(chars: &Vec<char>, from: usize) -> (end: usize)
    requires
        from <= chars.len(),
    ensures
        end == word_end(chars@, from as int),
        from <= end <= chars.len(),
{
    let mut at: usize = from;
    while at < chars.len() && is_word_char(chars[at])
        invariant
            from <= at <= chars.len(),
            word_end(chars@, at as int) == word_end(chars@, from as int),
        decreases chars.len() - at,
    {
        at = at + 1;
    }
    at
}

/// Where the line of `from` ends.
fn find_line_end(chars: &Vec<char>, from: usize) -> (end: usize)
    requires
        from <= chars.len(),
    ensures
        end == text::index_of(chars@, '\n', from as int),
        from <= end <= chars.len(),
{
    let mut at: usize = from;
    while at < chars.len() && chars[at] != '\n'
        invariant
            from <= at <= chars.len(),
            text::index_of(chars@, '\n', at as int) == text::index_of(chars@, '\n', from as int),
        decreases chars.len() - at,
    {
        at = at + 1;
    }
    at
}

/// Where the comment whose text begins at `from` closes, if it does.
fn find_comment_close(chars: &Vec<char>, from: usize) -> (close: Option<usize>)
    requires
        from <= chars.len(),
    ensures
        match close {
            Some(at) => comment_close(chars@, from as int) == Some(at as int) && at + 2
                <= chars.len(),
            None => comment_close(chars@, from as int) is None,
        },
{
    let mut at: usize = from;
    while at < chars.len() && chars.len() - at > 1
        invariant
            from <= at <= chars.len(),
            comment_close(chars@, at as int) == comment_close(chars@, from as int),
        decreases chars.len() - at,
    {
        if chars[at] == '*' && chars[at + 1] == '/' {
            return Some(at);
        }
        at = at + 1;
    }
    None
}

/// Where the string whose text begins at `from` closes, if it does.
fn find_string_close(chars: &Vec<char>, quote: char, from: usize) -> (close: Option<usize>)
    requires
        from <= chars.len(),
    ensures
        match close {
            Some(at) => string_close(chars@, quote, from as int) == Some(at as int) && from <= at
                < chars.len(),
            None => string_close(chars@, quote, from as int) is None,
        },
{
    let mut at: usize = from;
    while at < chars.len()
        invariant
            from <= at <= chars.len(),
            string_close(chars@, quote, at as int) == string_close(chars@, quote, from as int),
        decreases chars.len() - at,
    {
        if chars[at] == quote {
            return Some(at);
        }
        if chars[at] == '\\' {
            if chars.len() - at < 2 {
                assert(string_close(chars@, quote, at + 2) is None);
                return None;
            }
            at = at + 2;
        } else {
            at = at + 1;
        }
    }
    None
}

/// The tokens of `source`.
///
/// # Errors
/// A comment or a string that never closes.
pub fn tokenize(source: &str) -> (out: Result<Vec<String>, String>)
    ensures
        match out {
            Ok(tokens) => tokens_of(source@) == Ok::<Seq<Seq<char>>, Seq<char>>(
                crate::proto::texts(tokens@),
            ),
            Err(why) => tokens_of(source@) == Err::<Seq<Seq<char>>, Seq<char>>(why@),
        },
{
    let chars = text::characters(source);
    let mut tokens: Vec<String> = Vec::new();
    let mut at: usize = 0;
    while at < chars.len()
        invariant
            chars@ == source@,
            at <= chars.len(),
            tokens_of(source@) == preceded(
                crate::proto::texts(tokens@),
                tokens_from(source@, at as int),
            ),
        decreases chars.len() - at,
    {
        let ghost from = at as int;
        let ghost before = crate::proto::texts(tokens@);
        proof {
            lemma_piece(source@, from);
        }
        let c: char = chars[at];
        let more = chars.len() - at > 1;
        if c.is_whitespace() {
            at = at + 1;
        } else if c == '/' && more && chars[at + 1] == '/' {
            at = find_line_end(&chars, at);
        } else if c == '/' && more && chars[at + 1] == '*' {
            match find_comment_close(&chars, at + 2) {
                Some(close) => {
                    at = close + 2;
                },
                None => {
                    return Err("a comment that never closes".to_string());
                },
            }
        } else if c == '"' || c == '\'' {
            match find_string_close(&chars, c, at + 1) {
                Some(close) => {
                    tokens.push(text::string_of(&chars, at, close + 1));
                    at = close + 1;
                },
                None => {
                    return Err("a string that never closes".to_string());
                },
            }
        } else if is_word_char(c) {
            let end: usize = find_word_end(&chars, at);
            tokens.push(text::string_of(&chars, at, end));
            at = end;
        } else {
            assert(source@.subrange(from, from + 1) == seq![c]);
            tokens.push(text::string_of(&chars, at, at + 1));
            at = at + 1;
        }
        proof {
            lemma_preceded(before, source@, from);
            match piece(source@, from) {
                Ok((Some(token), _)) => {
                    assert(crate::proto::texts(tokens@) == before.push(token));
                },
                _ => {},
            }
        }
    }
    assert(crate::proto::texts(tokens@) + Seq::<Seq<char>>::empty() == crate::proto::texts(
        tokens@,
    ));
    Ok(tokens)
}

/// The tokens `before`, and after them what the rest has, if it has any.
pub open spec fn preceded(
    before: Seq<Seq<char>>,
    rest: Result<Seq<Seq<char>>, Seq<char>>,
) -> Result<Seq<Seq<char>>, Seq<char>> {
    match rest {
        Ok(tokens) => Ok(before + tokens),
        Err(why) => Err(why),
    }
}

/// One piece taken from the rest.
proof fn lemma_preceded(before: Seq<Seq<char>>, source: Seq<char>, at: int)
    requires
        0 <= at < source.len(),
    ensures
        preceded(before, tokens_from(source, at)) == (match piece(source, at) {
            Ok((Some(token), next)) => preceded(before.push(token), tokens_from(source, next)),
            Ok((None, next)) => preceded(before, tokens_from(source, next)),
            Err(why) => Err(why),
        }),
{
    if let Ok((Some(token), next)) = piece(source, at) {
        if let Ok(rest) = tokens_from(source, next) {
            assert(before + (seq![token] + rest) == before.push(token) + rest);
        }
    }
}

} // verus!
