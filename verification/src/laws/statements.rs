//! What each statement of a `.proto` file says, by the tokens it is written with.
use crate::grammar;
use crate::grammar::{Pending, State};
use crate::laws::names;
use crate::laws::schema;
use crate::proto;
use crate::proto::{FieldModel, FileModel, KindModel, MessageModel, MessagesModel};
use crate::text;
use vstd::prelude::*;

verus! {

/// Whether the words stand among the tokens at `at`.
pub open spec fn here(tokens: Seq<Seq<char>>, at: int, words: Seq<Seq<char>>) -> bool {
    &&& 0 <= at
    &&& at + words.len() <= tokens.len()
    &&& forall|i: int| 0 <= i < words.len() ==> tokens[at + i] == #[trigger] words[i]
}

/// Whether a word is a label of a field.
pub open spec fn is_label(word: Seq<char>) -> bool {
    word == "repeated"@ || word == "optional"@ || word == "required"@
}

/// Whether the words are the type of a field: one word, or a map.
pub open spec fn is_type(words: Seq<Seq<char>>) -> bool {
    ||| words.len() == 1 && words[0] != "map"@
    ||| words.len() == 6 && words[0] == "map"@ && words[1] == "<"@ && words[3] == ","@ && words[5]
        == ">"@
}

/// Whether the words are the options of a field: none, or words in brackets.
pub open spec fn is_options(words: Seq<Seq<char>>) -> bool {
    ||| words.len() == 0
    ||| {
        &&& words.len() >= 2
        &&& words[0] == "["@
        &&& words.last() == "]"@
        &&& forall|i: int| 0 <= i < words.len() - 1 ==> #[trigger] words[i] != "]"@
    }
}

/// Whether a word begins a field, inside a `oneof` or not.
pub open spec fn begins_field(word: Seq<char>, oneof: bool) -> bool {
    if oneof {
        word != "}"@ && word != "option"@
    } else {
        &&& word.len() > 0
        &&& word != "}"@
        &&& word != "message"@
        &&& word != "enum"@
        &&& word != "option"@
        &&& word != "reserved"@
        &&& word != "extensions"@
        &&& word != "oneof"@
    }
}

/// The kind that a type says by itself: a scalar type its kind, a name none yet; a map
/// has the kind of its keys, a varint where that is no scalar type.
pub open spec fn kind_at_first(words: Seq<Seq<char>>) -> KindModel {
    if words.len() == 1 {
        match proto::scalar_kind(words[0]) {
            Some(kind) => kind,
            None => KindModel::Opaque,
        }
    } else {
        KindModel::MapOf(
            Box::new(
                match proto::scalar_kind(words[2]) {
                    Some(kind) => kind,
                    None => KindModel::Varint,
                },
            ),
            Box::new(KindModel::Opaque),
        )
    }
}

/// The name that has to be looked up for a type, if there is one: the type itself where
/// it is no scalar type, of a map that of its values.
pub open spec fn name_to_look_up(words: Seq<Seq<char>>) -> Option<Seq<char>> {
    if words.len() == 6 {
        Some(words[4])
    } else if proto::scalar_kind(words[0]) is Some {
        None
    } else {
        Some(words[0])
    }
}

/// The fields of a message, none where there is no such message.
pub open spec fn fields_of(messages: MessagesModel, message: Seq<char>) -> MessageModel {
    if messages.contains_key(message) {
        messages[message]
    } else {
        MessageModel::empty()
    }
}

/// A field as it is written: labels, a type, a name, `=`, a number, options, `;`.
pub open spec fn field_words(
    labels: Seq<Seq<char>>,
    words: Seq<Seq<char>>,
    name: Seq<char>,
    number: Seq<char>,
    options: Seq<Seq<char>>,
) -> Seq<Seq<char>> {
    labels + words + seq![name, "="@, number] + options + seq![";"@]
}

proof fn lemma_labels(tokens: Seq<Seq<char>>, at: int, labels: Seq<Seq<char>>)
    requires
        here(tokens, at, labels),
        forall|i: int| 0 <= i < labels.len() ==> is_label(#[trigger] labels[i]),
        at + labels.len() < tokens.len(),
        !is_label(tokens[at + labels.len()]),
    ensures
        grammar::labels_end(tokens, at) == at + labels.len(),
    decreases labels.len(),
{
    if labels.len() > 0 {
        let rest = labels.drop_first();
        assert(tokens[at + 0] == labels[0]);
        assert(is_label(labels[0]));
        assert forall|i: int| 0 <= i < rest.len() implies tokens[at + 1 + i] == #[trigger] rest[i] by {
            assert(tokens[at + (i + 1)] == labels[i + 1]);
        }
        assert forall|i: int| 0 <= i < rest.len() implies is_label(#[trigger] rest[i]) by {
            assert(is_label(labels[i + 1]));
        }
        lemma_labels(tokens, at + 1, rest);
    }
}

/// What is skipped up to a word ends after the first one.
proof fn lemma_skips(tokens: Seq<Seq<char>>, at: int, what: Seq<char>, last: int)
    requires
        0 <= at <= last < tokens.len(),
        tokens[last] == what,
        forall|i: int| at <= i < last ==> #[trigger] tokens[i] != what,
    ensures
        grammar::skip_past(tokens, at, what) == Ok::<int, Seq<char>>(last + 1),
    decreases last - at,
{
    if at < last {
        lemma_skips(tokens, at + 1, what, last);
    }
}

/// The token at a place in a field.
proof fn lemma_field_words(
    tokens: Seq<Seq<char>>,
    at: int,
    labels: Seq<Seq<char>>,
    words: Seq<Seq<char>>,
    name: Seq<char>,
    number: Seq<char>,
    options: Seq<Seq<char>>,
)
    requires
        here(tokens, at, field_words(labels, words, name, number, options)),
    ensures
        here(tokens, at, labels),
        here(tokens, at + labels.len(), words),
        ({
            let named = at + labels.len() + words.len();
            &&& tokens[named] == name
            &&& tokens[named + 1] == "="@
            &&& tokens[named + 2] == number
            &&& here(tokens, named + 3, options)
            &&& tokens[named + 3 + options.len()] == ";"@
            &&& named + 4 + options.len() <= tokens.len()
        }),
{
    let all = field_words(labels, words, name, number, options);
    let (l, w) = (labels.len() as int, words.len() as int);
    assert forall|i: int| 0 <= i < labels.len() implies tokens[at + i] == #[trigger] labels[i] by {
        assert(all[i] == labels[i]);
    }
    assert forall|i: int| 0 <= i < words.len() implies tokens[at + labels.len() + i]
        == #[trigger] words[i] by {
        assert(all[l + i] == words[i]);
        assert(tokens[at + (l + i)] == all[l + i]);
    }
    assert(all[l + w] == name && tokens[at + (l + w)] == all[l + w]);
    assert(all[l + w + 1] == "="@ && tokens[at + (l + w + 1)] == all[l + w + 1]);
    assert(all[l + w + 2] == number && tokens[at + (l + w + 2)] == all[l + w + 2]);
    assert forall|i: int| 0 <= i < options.len() implies tokens[at + l + w + 3 + i]
        == #[trigger] options[i] by {
        assert(all[l + w + 3 + i] == options[i]);
        assert(tokens[at + (l + w + 3 + i)] == all[l + w + 3 + i]);
    }
    let end = l + w + 3 + options.len();
    assert(all[end] == ";"@ && tokens[at + end] == all[end]);
}

proof fn lemma_type(tokens: Seq<Seq<char>>, at: int, words: Seq<Seq<char>>)
    requires
        here(tokens, at, words),
        is_type(words),
    ensures
        grammar::field_type(tokens, at) == Ok::<(KindModel, Option<Seq<char>>, int), Seq<char>>(
            (kind_at_first(words), name_to_look_up(words), at + words.len()),
        ),
{
    assert(tokens[at + 0] == words[0]);
    if words.len() == 6 {
        assert(tokens[at + 1] == words[1]);
        assert(tokens[at + 2] == words[2]);
        assert(tokens[at + 3] == words[3]);
        assert(tokens[at + 4] == words[4]);
        assert(tokens[at + 5] == words[5]);
    }
}

proof fn lemma_field_read(
    tokens: Seq<Seq<char>>,
    at: int,
    message: Seq<char>,
    labels: Seq<Seq<char>>,
    words: Seq<Seq<char>>,
    name: Seq<char>,
    written: Seq<char>,
    number: u32,
    options: Seq<Seq<char>>,
    may: bool,
)
    requires
        here(tokens, at, field_words(labels, words, name, written, options)),
        forall|i: int| 0 <= i < labels.len() ==> is_label(#[trigger] labels[i]),
        !may ==> labels.len() == 0,
        may ==> !is_label(words[0]),
        is_type(words),
        text::number(written) == Some(number),
        is_options(options),
    ensures
        grammar::field(tokens, at, message, may) == Ok::<grammar::FieldRead, Seq<char>>(
            grammar::FieldRead {
                field: FieldModel {
                    name,
                    kind: kind_at_first(words),
                    repeated: labels.len() > 0 && labels.last() == "repeated"@,
                },
                number,
                written: name_to_look_up(words),
                next: at + labels.len() + words.len() + options.len() + 4,
            },
        ),
{
    lemma_field_words(tokens, at, labels, words, name, written, options);
    let typed = at + labels.len();
    assert(tokens[typed + 0] == words[0]);
    if may {
        lemma_labels(tokens, at, labels);
    }
    if labels.len() > 0 {
        let last = labels.len() - 1;
        assert(tokens[at + last] == labels[last]);
    }
    lemma_type(tokens, typed, words);
    let opened = typed + words.len() + 3;
    reveal_strlit("[");
    reveal_strlit(";");
    assert("["@[0] == '[' && ";"@[0] == ';');
    if options.len() > 0 {
        assert(tokens[opened + 0] == options[0]);
        let close = opened + options.len() - 1;
        assert(tokens[opened + (options.len() - 1)] == options[options.len() - 1]);
        assert forall|i: int| opened <= i < close implies #[trigger] tokens[i] != "]"@ by {
            assert(tokens[opened + (i - opened)] == options[i - opened]);
        }
        lemma_skips(tokens, opened, "]"@, close);
    }
}

/// A field of the innermost open message, in a `oneof` or not: labels, which only stand
/// outside a `oneof` and of which the last counts, a type, a name, `=`, a number,
/// options, `;`. The message has it under its number, in place of one it had, with its
/// name, repeated exactly when its last label is `repeated`; and where a name has to be
/// looked up for its type, exactly that one is added to those, with the messages around
/// it. Options say nothing, and nothing else changes.
pub proof fn law_what_a_field_says(
    tokens: Seq<Seq<char>>,
    state: State,
    labels: Seq<Seq<char>>,
    words: Seq<Seq<char>>,
    name: Seq<char>,
    written: Seq<char>,
    number: u32,
    options: Seq<Seq<char>>,
)
    requires
        state.open.len() > 0,
        here(tokens, state.at, field_words(labels, words, name, written, options)),
        forall|i: int| 0 <= i < labels.len() ==> is_label(#[trigger] labels[i]),
        state.oneof ==> labels.len() == 0,
        !state.oneof ==> !is_label(words[0]),
        is_type(words),
        begins_field(tokens[state.at], state.oneof),
        text::number(written) == Some(number),
        is_options(options),
    ensures
        ({
            let message = proto::full_name_of(
                state.file.package,
                state.open.drop_last(),
                state.open.last(),
            );
            let field = FieldModel {
                name,
                kind: kind_at_first(words),
                repeated: labels.len() > 0 && labels.last() == "repeated"@,
            };
            grammar::step(tokens, state) == Ok::<State, Seq<char>>(
                State {
                    at: state.at + labels.len() + words.len() + options.len() + 4,
                    open: state.open,
                    oneof: state.oneof,
                    file: FileModel {
                        package: state.file.package,
                        messages: state.file.messages.insert(
                            message,
                            fields_of(state.file.messages, message).insert(number, field),
                        ),
                        imports: state.file.imports,
                        enums: state.file.enums,
                    },
                    pending: match name_to_look_up(words) {
                        None => state.pending,
                        Some(looked_up) => state.pending.push(
                            Pending {
                                message,
                                number,
                                scope: state.open,
                                written: looked_up,
                            },
                        ),
                    },
                },
            )
        }),
{
    let message = proto::full_name_of(
        state.file.package,
        state.open.drop_last(),
        state.open.last(),
    );
    lemma_field_read(
        tokens,
        state.at,
        message,
        labels,
        words,
        name,
        written,
        number,
        options,
        !state.oneof,
    );
    if !state.file.messages.contains_key(message) {
        assert(proto::declared(state.file.messages, message)[message] == MessageModel::empty());
    }
}

/// A number that is none refuses the field, with its name and that of its message.
pub proof fn law_a_field_has_a_number(
    tokens: Seq<Seq<char>>,
    state: State,
    word: Seq<char>,
    name: Seq<char>,
    written: Seq<char>,
)
    requires
        state.open.len() > 0,
        here(tokens, state.at, seq![word, name, "="@, written]),
        word != "map"@,
        !state.oneof ==> !is_label(word),
        begins_field(word, state.oneof),
        text::number(written) is None,
    ensures
        grammar::step(tokens, state) == Err::<State, Seq<char>>(
            "field "@ + name + " of "@ + proto::full_name_of(
                state.file.package,
                state.open.drop_last(),
                state.open.last(),
            ) + " has no number"@,
        ),
{
    let words = seq![word, name, "="@, written];
    assert(tokens[state.at + 0] == words[0]);
    assert(tokens[state.at + 1] == words[1]);
    assert(tokens[state.at + 2] == words[2]);
    assert(tokens[state.at + 3] == words[3]);
}

/// A word that is asked for and is not there is told with the one that is, and tokens
/// that end before it end inside a definition.
pub proof fn law_what_is_asked_for(tokens: Seq<Seq<char>>, at: int, what: Seq<char>)
    ensures
        grammar::expect(tokens, at, what) == (if at >= tokens.len() {
            Err::<int, Seq<char>>("the file ends inside a definition"@)
        } else if tokens[at] != what {
            Err(
                "expected "@ + text::debug_text(what) + ", found "@ + text::debug_text(tokens[at]),
            )
        } else {
            Ok(at + 1)
        }),
{
}

/// `package name ;` gives the file its package.
pub proof fn law_what_a_package_says(tokens: Seq<Seq<char>>, state: State, name: Seq<char>)
    requires
        state.open.len() == 0,
        here(tokens, state.at, seq!["package"@, name, ";"@]),
    ensures
        grammar::step(tokens, state) == Ok::<State, Seq<char>>(
            State {
                at: state.at + 3,
                file: FileModel { package: name, ..state.file },
                ..state
            },
        ),
{
    let words = seq!["package"@, name, ";"@];
    lemma_words_differ();
    assert(tokens[state.at + 0] == words[0]);
    assert(tokens[state.at + 1] == words[1]);
    assert(tokens[state.at + 2] == words[2]);
}

proof fn lemma_words_differ()
    ensures
        "package"@ != "syntax"@ && "package"@ != "edition"@ && "package"@ != "option"@ && "package"@
            != "reserved"@ && "package"@ != "extensions"@,
        "import"@ != "syntax"@ && "import"@ != "edition"@ && "import"@ != "option"@ && "import"@
            != "reserved"@ && "import"@ != "extensions"@ && "import"@ != "package"@,
        "enum"@ != "syntax"@ && "enum"@ != "edition"@ && "enum"@ != "option"@ && "enum"@
            != "reserved"@ && "enum"@ != "extensions"@ && "enum"@ != "package"@ && "enum"@
            != "import"@ && "enum"@ != "message"@ && "enum"@ != "}"@,
        ";"@ != "syntax"@ && ";"@ != "edition"@ && ";"@ != "option"@ && ";"@ != "reserved"@ && ";"@
            != "extensions"@ && ";"@ != "package"@ && ";"@ != "import"@ && ";"@ != "message"@
            && ";"@ != "enum"@,
        "oneof"@ != "}"@,
        "public"@ != "weak"@,
        "{"@ != "}"@,
        "option"@ != "}"@ && "reserved"@ != "}"@ && "extensions"@ != "}"@ && "message"@ != "}"@,
{
    grammar::lemma_words();
    reveal_strlit("}");
    reveal_strlit("{");
    reveal_strlit("oneof");
    reveal_strlit("option");
    reveal_strlit("syntax");
    reveal_strlit("edition");
    reveal_strlit("reserved");
    reveal_strlit("extensions");
    reveal_strlit("package");
    reveal_strlit("import");
    reveal_strlit("message");
    reveal_strlit("enum");
    reveal_strlit("public");
    reveal_strlit("weak");
    reveal_strlit(";");
    assert("import"@.len() == 6 && "syntax"@.len() == 6 && "option"@.len() == 6);
    assert("import"@[0] == 'i' && "syntax"@[0] == 's' && "option"@[0] == 'o');
    assert("package"@.len() == 7 && "edition"@.len() == 7 && "message"@.len() == 7);
    assert("package"@[0] == 'p' && "edition"@[0] == 'e' && "message"@[0] == 'm');
    assert("reserved"@.len() == 8 && "extensions"@.len() == 10 && "enum"@.len() == 4);
    assert("public"@.len() == 6 && "weak"@.len() == 4 && "oneof"@.len() == 5);
    assert(";"@.len() == 1 && "}"@.len() == 1 && "{"@.len() == 1);
    assert("}"@[0] == '}' && "{"@[0] == '{');
}

/// Whether a text is double quotes and nothing else.
pub open spec fn all_quotes(s: Seq<char>) -> bool {
    forall|i: int| 0 <= i < s.len() ==> #[trigger] s[i] == '"'
}

/// The double quotes around a path are no part of it, and nothing else is taken away.
pub proof fn law_a_path_is_between_its_quotes(a: Seq<char>, path: Seq<char>, b: Seq<char>)
    requires
        all_quotes(a),
        all_quotes(b),
        path.len() > 0 ==> path[0] != '"' && path.last() != '"',
    ensures
        grammar::unquoted(a + path + b) == path,
    decreases a.len() + b.len(),
{
    let whole = a + path + b;
    if a.len() > 0 {
        assert(a[0] == '"' && whole[0] == a[0]);
        assert(whole.drop_first() == a.drop_first() + path + b);
        assert forall|i: int| 0 <= i < a.drop_first().len() implies #[trigger] a.drop_first()[i]
            == '"' by {
            assert(a[i + 1] == '"');
        }
        law_a_path_is_between_its_quotes(a.drop_first(), path, b);
    } else if b.len() > 0 {
        assert(b[b.len() - 1] == '"' && whole.last() == b.last());
        if path.len() > 0 {
            assert(whole[0] == path[0]);
            assert(whole.drop_last() == a + path + b.drop_last());
            assert forall|i: int| 0 <= i < b.drop_last().len() implies #[trigger] b.drop_last()[i]
                == '"' by {
                assert(b[i] == '"');
            }
            law_a_path_is_between_its_quotes(a, path, b.drop_last());
        } else {
            assert(b[0] == '"' && whole[0] == b[0]);
            assert(whole.drop_first() == a + path + b.drop_first());
            assert forall|i: int| 0 <= i < b.drop_first().len() implies #[trigger] b.drop_first()[i]
                == '"' by {
                assert(b[i + 1] == '"');
            }
            law_a_path_is_between_its_quotes(a, path, b.drop_first());
        }
    } else {
        assert(whole == path);
    }
}

/// `import "path" ;`, with `public` or `weak` before the path or not, adds that path to
/// the imports.
pub proof fn law_what_an_import_says(
    tokens: Seq<Seq<char>>,
    state: State,
    how: Seq<Seq<char>>,
    a: Seq<char>,
    path: Seq<char>,
    b: Seq<char>,
)
    requires
        state.open.len() == 0,
        how.len() == 0 && a + path + b != "public"@ && a + path + b != "weak"@ || how
            == seq!["public"@] || how == seq!["weak"@],
        all_quotes(a),
        all_quotes(b),
        path.len() > 0 ==> path[0] != '"' && path.last() != '"',
        here(tokens, state.at, seq!["import"@] + how + seq![a + path + b, ";"@]),
    ensures
        grammar::step(tokens, state) == Ok::<State, Seq<char>>(
            State {
                at: state.at + 3 + how.len(),
                file: FileModel { imports: state.file.imports.push(path), ..state.file },
                ..state
            },
        ),
{
    let quoted = a + path + b;
    let words = seq!["import"@] + how + seq![quoted, ";"@];
    lemma_words_differ();
    law_a_path_is_between_its_quotes(a, path, b);
    assert(words[0] == "import"@ && tokens[state.at + 0] == words[0]);
    let n = how.len() as int;
    assert(words[1 + n] == quoted && tokens[state.at + (1 + n)] == words[1 + n]);
    assert(words[2 + n] == ";"@ && tokens[state.at + (2 + n)] == words[2 + n]);
    if n == 1 {
        assert(words[1] == how[0] && tokens[state.at + 1] == words[1]);
    }
}

/// `message name {` opens a message, outside any or inside the innermost open one: it
/// is one of the file from there on, with the fields it had, if any.
pub proof fn law_what_begins_a_message(tokens: Seq<Seq<char>>, state: State, name: Seq<char>)
    requires
        !state.oneof,
        here(tokens, state.at, seq!["message"@, name, "{"@]),
    ensures
        ({
            let full = proto::full_name_of(state.file.package, state.open, name);
            grammar::step(tokens, state) == Ok::<State, Seq<char>>(
                State {
                    at: state.at + 3,
                    open: state.open.push(name),
                    file: FileModel {
                        messages: state.file.messages.insert(
                            full,
                            fields_of(state.file.messages, full),
                        ),
                        ..state.file
                    },
                    ..state
                },
            )
        }),
{
    let words = seq!["message"@, name, "{"@];
    grammar::lemma_words();
    lemma_words_differ();
    assert(tokens[state.at + 0] == words[0]);
    assert(tokens[state.at + 1] == words[1]);
    assert(tokens[state.at + 2] == words[2]);
    let full = proto::full_name_of(state.file.package, state.open, name);
    assert(proto::declared(state.file.messages, full) =~= state.file.messages.insert(
        full,
        fields_of(state.file.messages, full),
    ));
}

/// `}` closes the `oneof` that is open, else the innermost open message.
pub proof fn law_what_a_closing_brace_says(tokens: Seq<Seq<char>>, state: State)
    requires
        state.open.len() > 0,
        here(tokens, state.at, seq!["}"@]),
    ensures
        grammar::step(tokens, state) == Ok::<State, Seq<char>>(
            State {
                at: state.at + 1,
                open: if state.oneof {
                    state.open
                } else {
                    state.open.drop_last()
                },
                oneof: false,
                ..state
            },
        ),
{
    assert(tokens[state.at + 0] == seq!["}"@][0]);
}

/// `oneof name {` opens a `oneof` of the innermost open message; its name says nothing.
pub proof fn law_what_begins_a_oneof(tokens: Seq<Seq<char>>, state: State, name: Seq<char>)
    requires
        state.open.len() > 0,
        !state.oneof,
        here(tokens, state.at, seq!["oneof"@, name, "{"@]),
    ensures
        grammar::step(tokens, state) == Ok::<State, Seq<char>>(
            State { at: state.at + 3, oneof: true, ..state },
        ),
{
    let words = seq!["oneof"@, name, "{"@];
    grammar::lemma_words();
    lemma_words_differ();
    assert(tokens[state.at + 0] == words[0]);
    assert(tokens[state.at + 2] == words[2]);
}

/// How many braces are open after so many words, more than were before them.
pub open spec fn braces_open(words: Seq<Seq<char>>, n: int) -> int
    decreases n,
{
    if n <= 0 {
        0
    } else {
        braces_open(words, n - 1) + if words[n - 1] == "{"@ {
            1int
        } else if words[n - 1] == "}"@ {
            -1
        } else {
            0
        }
    }
}

/// Whether every brace among the words is closed by one after it, and none else is.
pub open spec fn balanced(words: Seq<Seq<char>>) -> bool {
    &&& forall|n: int| 0 <= n <= words.len() ==> #[trigger] braces_open(words, n) >= 0
    &&& braces_open(words, words.len() as int) == 0
}

proof fn lemma_block_is_skipped(tokens: Seq<Seq<char>>, at: int, body: Seq<Seq<char>>, n: int)
    requires
        here(tokens, at, body),
        at + body.len() < tokens.len(),
        tokens[at + body.len()] == "}"@,
        balanced(body),
        0 <= n <= body.len(),
    ensures
        grammar::skip_blocks(tokens, at + n, (1 + braces_open(body, n)) as nat) == Ok::<
            int,
            Seq<char>,
        >(at + body.len() + 1),
    decreases body.len() - n,
{
    lemma_words_differ();
    assert(braces_open(body, n) >= 0);
    if n < body.len() {
        lemma_block_is_skipped(tokens, at, body, n + 1);
        assert(tokens[at + n] == body[n]);
        assert(braces_open(body, n + 1) >= 0);
    } else {
        assert(grammar::skip_blocks(tokens, at + n + 1, 0) == Ok::<int, Seq<char>>(at + n + 1));
    }
}

/// `enum name { .. }` adds an enum, under its full name; it ends at its own closing
/// brace, and what is in it is not looked at.
pub proof fn law_what_an_enum_says(
    tokens: Seq<Seq<char>>,
    state: State,
    name: Seq<char>,
    body: Seq<Seq<char>>,
)
    requires
        !state.oneof,
        balanced(body),
        here(tokens, state.at, seq!["enum"@, name, "{"@] + body + seq!["}"@]),
    ensures
        grammar::step(tokens, state) == Ok::<State, Seq<char>>(
            State {
                at: state.at + 4 + body.len(),
                file: FileModel {
                    enums: state.file.enums.push(
                        proto::full_name_of(state.file.package, state.open, name),
                    ),
                    ..state.file
                },
                ..state
            },
        ),
{
    let words = seq!["enum"@, name, "{"@] + body + seq!["}"@];
    grammar::lemma_words();
    lemma_words_differ();
    assert(words[0] == "enum"@ && tokens[state.at + 0] == words[0]);
    assert(words[1] == name && tokens[state.at + 1] == words[1]);
    assert(words[2] == "{"@ && tokens[state.at + 2] == words[2]);
    let inside = state.at + 3;
    assert forall|i: int| 0 <= i < body.len() implies tokens[inside + i] == #[trigger] body[i] by {
        assert(words[3 + i] == body[i]);
        assert(tokens[state.at + (3 + i)] == words[3 + i]);
    }
    let n = body.len() as int;
    assert(words[3 + n] == "}"@ && tokens[state.at + (3 + n)] == words[3 + n]);
    lemma_block_is_skipped(tokens, inside, body, 0);
}

/// Statements that say nothing here are passed over to their `;`: `syntax`, `edition`,
/// `option`, `reserved` and `extensions` outside messages, the last three inside one,
/// and `option` inside a `oneof`.
pub proof fn law_what_is_passed_over(
    tokens: Seq<Seq<char>>,
    state: State,
    word: Seq<char>,
    body: Seq<Seq<char>>,
)
    requires
        word == "option"@ || !state.oneof && (word == "reserved"@ || word == "extensions"@)
            || state.open.len() == 0 && (word == "syntax"@ || word == "edition"@),
        state.oneof ==> state.open.len() > 0,
        forall|i: int| 0 <= i < body.len() ==> #[trigger] body[i] != ";"@,
        here(tokens, state.at, seq![word] + body + seq![";"@]),
    ensures
        grammar::step(tokens, state) == Ok::<State, Seq<char>>(
            State { at: state.at + 2 + body.len(), ..state },
        ),
{
    let words = seq![word] + body + seq![";"@];
    grammar::lemma_words();
    lemma_words_differ();
    assert(words[0] == word && tokens[state.at + 0] == words[0]);
    let n = body.len() as int;
    let last = state.at + 1 + n;
    assert(words[1 + n] == ";"@ && tokens[state.at + (1 + n)] == words[1 + n]);
    assert forall|i: int| state.at + 1 <= i < last implies #[trigger] tokens[i] != ";"@ by {
        assert(words[i - state.at] == body[i - state.at - 1]);
        assert(tokens[state.at + (i - state.at)] == words[i - state.at]);
    }
    lemma_skips(tokens, state.at + 1, ";"@, last);
}

/// `;` by itself says nothing, and a word that begins no statement is refused.
pub proof fn law_what_begins_no_statement(tokens: Seq<Seq<char>>, state: State)
    requires
        state.open.len() == 0,
        0 <= state.at < tokens.len(),
    ensures
        tokens[state.at] == ";"@ ==> grammar::step(tokens, state) == Ok::<State, Seq<char>>(
            State { at: state.at + 1, ..state },
        ),
        ({
            let word = tokens[state.at];
            word != ";"@ && word != "syntax"@ && word != "edition"@ && word != "option"@ && word
                != "reserved"@ && word != "extensions"@ && word != "package"@ && word != "import"@
                && word != "message"@ && word != "enum"@
        }) ==> grammar::step(tokens, state) == Err::<State, Seq<char>>(
            text::debug_text(tokens[state.at]) + " does not begin a statement"@,
        ),
{
    lemma_words_differ();
}

/// Tokens that end inside a message never close it.
pub proof fn law_a_message_has_to_close(tokens: Seq<Seq<char>>, state: State)
    requires
        state.open.len() > 0,
        !state.oneof,
        state.at >= tokens.len(),
    ensures
        grammar::step(tokens, state) == Err::<State, Seq<char>>(
            "message "@ + proto::full_name_of(
                state.file.package,
                state.open.drop_last(),
                state.open.last(),
            ) + " never closes"@,
        ),
{
    grammar::lemma_words();
}

/// Tokens that end inside a `oneof` end inside a definition.
pub proof fn law_a_oneof_has_to_close(tokens: Seq<Seq<char>>, state: State)
    requires
        state.open.len() > 0,
        state.oneof,
        state.at >= tokens.len(),
    ensures
        grammar::step(tokens, state) == Err::<State, Seq<char>>(
            "the file ends inside a definition"@,
        ),
{
    grammar::lemma_words();
}

/// Reading goes on, a step at a time, until all is read and no message is open; what
/// refuses a step refuses the file.
pub proof fn law_reading_goes_on(tokens: Seq<Seq<char>>, state: State)
    requires
        0 <= state.at,
    ensures
        state.open.len() == 0 && state.at >= tokens.len() ==> grammar::run(tokens, state) == Ok::<
            State,
            Seq<char>,
        >(state),
        !(state.open.len() == 0 && state.at >= tokens.len()) ==> (match grammar::step(
            tokens,
            state,
        ) {
            Ok(next) => grammar::run(tokens, state) == grammar::run(tokens, next),
            Err(why) => grammar::run(tokens, state) == Err::<State, Seq<char>>(why),
        }),
{
    grammar::lemma_step(tokens, state);
}

/// A file begins with nothing said, and is what its tokens say once the types of its
/// fields are looked up.
pub proof fn law_a_file_is_read_from_nothing(tokens: Seq<Seq<char>>)
    ensures
        ({
            let start = State {
                at: 0,
                open: Seq::empty(),
                oneof: false,
                file: FileModel {
                    package: Seq::empty(),
                    messages: MessagesModel::empty(),
                    imports: Seq::empty(),
                    enums: Seq::empty(),
                },
                pending: Seq::empty(),
            };
            grammar::file_of_tokens(tokens) == (match grammar::run(tokens, start) {
                Ok(end) => Ok::<FileModel, Seq<char>>(grammar::settle_all(end.file, end.pending)),
                Err(why) => Err(why),
            })
        }),
{
}

/// Reading keeps the names that are still to be looked up, in their places.
proof fn lemma_run_keeps_pending(tokens: Seq<Seq<char>>, state: State)
    requires
        0 <= state.at,
    ensures
        grammar::run(tokens, state) matches Ok(end) ==> state.pending.is_prefix_of(end.pending),
    decreases tokens.len() - state.at,
{
    if !(state.open.len() == 0 && state.at >= tokens.len()) {
        grammar::lemma_step(tokens, state);
        if let Ok(next) = grammar::step(tokens, state) {
            assert(state.pending.is_prefix_of(next.pending));
            lemma_run_keeps_pending(tokens, next);
        }
    }
}

/// In a file that is read, a field that is written with a type name, inside a `oneof` or
/// outside one, has the kind that the name stands for in the whole file, seen from the
/// messages around the field; of a map that is the kind of its values. It has its name,
/// and is repeated exactly when its last label is `repeated`. This holds where its
/// number is not given again in the same message.
pub proof fn law_a_field_of_a_named_type_is_of_what_the_name_stands_for(
    tokens: Seq<Seq<char>>,
    state: State,
    labels: Seq<Seq<char>>,
    words: Seq<Seq<char>>,
    name: Seq<char>,
    written: Seq<char>,
    number: u32,
    options: Seq<Seq<char>>,
    next: State,
    end: State,
)
    requires
        state.open.len() > 0,
        here(tokens, state.at, field_words(labels, words, name, written, options)),
        forall|i: int| 0 <= i < labels.len() ==> is_label(#[trigger] labels[i]),
        state.oneof ==> labels.len() == 0,
        !state.oneof ==> !is_label(words[0]),
        is_type(words),
        begins_field(tokens[state.at], state.oneof),
        text::number(written) == Some(number),
        is_options(options),
        name_to_look_up(words) is Some,
        grammar::step(tokens, state) == Ok::<State, Seq<char>>(next),
        grammar::run(tokens, next) == Ok::<State, Seq<char>>(end),
        ({
            let message = proto::full_name_of(
                state.file.package,
                state.open.drop_last(),
                state.open.last(),
            );
            &&& schema::has_field(end.file.messages, message, number)
            &&& end.file.messages[message][number] == next.file.messages[message][number]
            &&& forall|j: int|
                state.pending.len() < j < end.pending.len() ==> !((
                #[trigger] end.pending[j]).message == message && end.pending[j].number == number)
        }),
    ensures
        ({
            let message = proto::full_name_of(
                state.file.package,
                state.open.drop_last(),
                state.open.last(),
            );
            let whole = grammar::settle_all(end.file, end.pending);
            let found = proto::resolved(whole, state.open, name_to_look_up(words)->Some_0);
            whole.messages[message][number] == (FieldModel {
                name,
                kind: match kind_at_first(words) {
                    KindModel::MapOf(keys, _) => KindModel::MapOf(keys, Box::new(found)),
                    _ => found,
                },
                repeated: labels.len() > 0 && labels.last() == "repeated"@,
            })
        }),
{
    law_what_a_field_says(tokens, state, labels, words, name, written, number, options);
    grammar::lemma_step(tokens, state);
    lemma_run_keeps_pending(tokens, next);
    let i = state.pending.len() as int;
    assert(next.pending[i] == end.pending[i]);
    names::law_a_type_looked_up_is_the_kind(end.file, end.pending, i);
}

proof fn lemma_skipped(tokens: Seq<Seq<char>>, at: int, what: Seq<char>)
    requires
        0 <= at,
    ensures
        grammar::skip_past(tokens, at, what) matches Ok(next) ==> {
            &&& at < next <= tokens.len()
            &&& tokens[next - 1] == what
            &&& forall|i: int| at <= i < next - 1 ==> #[trigger] tokens[i] != what
        },
    decreases tokens.len() - at,
{
    if at < tokens.len() && tokens[at] != what {
        lemma_skipped(tokens, at + 1, what);
    }
}

proof fn lemma_labels_are(tokens: Seq<Seq<char>>, at: int)
    requires
        0 <= at <= tokens.len(),
    ensures
        ({
            let end = grammar::labels_end(tokens, at);
            &&& at <= end <= tokens.len()
            &&& forall|i: int| at <= i < end ==> is_label(#[trigger] tokens[i])
            &&& end < tokens.len() ==> !is_label(tokens[end])
        }),
    decreases tokens.len() - at,
{
    if at < tokens.len() && is_label(tokens[at]) {
        lemma_labels_are(tokens, at + 1);
    }
}

/// The parts of a field as it is written.
pub struct FieldWords {
    pub labels: Seq<Seq<char>>,
    pub words: Seq<Seq<char>>,
    pub name: Seq<char>,
    pub number: Seq<char>,
    pub options: Seq<Seq<char>>,
}

/// Whether tokens are a field that is written in these parts, each of them what it has to
/// be.
pub open spec fn is_field(tokens: Seq<Seq<char>>, at: int, oneof: bool, parts: FieldWords) -> bool {
    &&& here(
        tokens,
        at,
        field_words(parts.labels, parts.words, parts.name, parts.number, parts.options),
    )
    &&& forall|i: int| 0 <= i < parts.labels.len() ==> is_label(#[trigger] parts.labels[i])
    &&& oneof ==> parts.labels.len() == 0
    &&& !oneof ==> !is_label(parts.words[0])
    &&& is_type(parts.words)
    &&& text::number(parts.number) is Some
    &&& is_options(parts.options)
}

/// Where the parts of a field are that is read.
proof fn lemma_field_is(tokens: Seq<Seq<char>>, at: int, message: Seq<char>, may: bool) -> (places: (
    int,
    int,
    int,
))
    requires
        0 <= at < tokens.len(),
        grammar::field(tokens, at, message, may) is Ok,
    ensures
        ({
            let (typed, named, end) = places;
            &&& at <= typed < named
            &&& typed == if may {
                grammar::labels_end(tokens, at)
            } else {
                at
            }
            &&& named + 3 <= end < tokens.len()
            &&& named == typed + 1 && tokens[typed] != "map"@ || named == typed + 6 && tokens[typed]
                == "map"@ && tokens[typed + 1] == "<"@ && tokens[typed + 3] == ","@ && tokens[typed
                + 5] == ">"@
            &&& tokens[named + 1] == "="@
            &&& text::number(tokens[named + 2]) is Some
            &&& tokens[end] == ";"@
            &&& named + 3 < end ==> {
                &&& tokens[named + 3] == "["@
                &&& tokens[end - 1] == "]"@
                &&& forall|i: int| named + 3 <= i < end - 1 ==> #[trigger] tokens[i] != "]"@
            }
        }),
{
    lemma_labels_are(tokens, at);
    let typed = if may {
        grammar::labels_end(tokens, at)
    } else {
        at
    };
    let named = grammar::field_type(tokens, typed)->Ok_0.2;
    let end = grammar::field(tokens, at, message, may)->Ok_0.next - 1;
    lemma_skipped(tokens, named + 3, "]"@);
    (typed, named, end)
}

/// A field is read only where it is written as one: labels outside a `oneof`, a type or a
/// map, a name, `=`, a number, options in brackets, `;`.
pub proof fn law_a_field_is_written_as_one(tokens: Seq<Seq<char>>, state: State) -> (parts:
    FieldWords)
    requires
        0 <= state.at < tokens.len(),
        state.open.len() > 0,
        begins_field(tokens[state.at], state.oneof),
        grammar::step(tokens, state) is Ok,
    ensures
        is_field(tokens, state.at, state.oneof, parts),
{
    let (typed, named, end) = lemma_field_is(tokens, state.at, state.message(), !state.oneof);
    lemma_labels_are(tokens, state.at);
    let parts = FieldWords {
        labels: tokens.subrange(state.at, typed),
        words: tokens.subrange(typed, named),
        name: tokens[named],
        number: tokens[named + 2],
        options: tokens.subrange(named + 3, end),
    };
    lemma_parts_are_a_field(tokens, state.at, typed, named, end);
    assert forall|i: int| 0 <= i < parts.labels.len() implies is_label(
        #[trigger] parts.labels[i],
    ) by {
        assert(parts.labels[i] == tokens[state.at + i]);
    }
    assert(is_type(parts.words));
    assert(is_options(parts.options)) by {
        lemma_brackets(tokens, named + 3, end);
    }
    parts
}

proof fn lemma_brackets(tokens: Seq<Seq<char>>, at: int, end: int)
    requires
        0 <= at <= end < tokens.len(),
        at < end ==> {
            &&& tokens[at] == "["@
            &&& tokens[end - 1] == "]"@
            &&& forall|i: int| at <= i < end - 1 ==> #[trigger] tokens[i] != "]"@
        },
    ensures
        is_options(tokens.subrange(at, end)),
{
    let options = tokens.subrange(at, end);
    if at < end {
        reveal_strlit("[");
        reveal_strlit("]");
        assert("["@[0] == '[' && "]"@[0] == ']');
        assert(options[0] == tokens[at]);
        assert(options.last() == tokens[end - 1]);
        assert forall|i: int| 0 <= i < options.len() - 1 implies #[trigger] options[i] != "]"@ by {
            assert(options[i] == tokens[at + i]);
        }
    }
}

proof fn lemma_parts_are_a_field(
    tokens: Seq<Seq<char>>,
    at: int,
    typed: int,
    named: int,
    end: int,
)
    requires
        0 <= at <= typed <= named,
        named + 3 <= end < tokens.len(),
        tokens[named + 1] == "="@,
        tokens[end] == ";"@,
    ensures
        here(
            tokens,
            at,
            field_words(
                tokens.subrange(at, typed),
                tokens.subrange(typed, named),
                tokens[named],
                tokens[named + 2],
                tokens.subrange(named + 3, end),
            ),
        ),
{
    let all = field_words(
        tokens.subrange(at, typed),
        tokens.subrange(typed, named),
        tokens[named],
        tokens[named + 2],
        tokens.subrange(named + 3, end),
    );
    assert(all =~= tokens.subrange(at, end + 1));
    assert forall|i: int| 0 <= i < all.len() implies tokens[at + i] == #[trigger] all[i] by {
        assert(tokens.subrange(at, end + 1)[i] == tokens[at + i]);
    }
}

/// Any other statement is read only where it is written as one: a package and an import
/// to their `;`, a message and a `oneof` from their brace, an enum in its braces, and
/// what is passed over to its `;`.
pub proof fn law_statements_are_written_as_they_are(tokens: Seq<Seq<char>>, state: State)
    requires
        0 <= state.at < tokens.len(),
        state.oneof ==> state.open.len() > 0,
        grammar::step(tokens, state) is Ok,
    ensures
        ({
            let at = state.at;
            let word = tokens[at];
            &&& state.open.len() == 0 && word == "package"@ ==> at + 2 < tokens.len() && tokens[at
                + 2] == ";"@
            &&& state.open.len() == 0 && word == "import"@ ==> at + 2 < tokens.len() && (
            if tokens[at + 1] == "public"@ || tokens[at + 1] == "weak"@ {
                at + 3 < tokens.len() && tokens[at + 3] == ";"@
            } else {
                tokens[at + 2] == ";"@
            })
            &&& !state.oneof && word == "message"@ ==> at + 2 < tokens.len() && tokens[at + 2]
                == "{"@
            &&& !state.oneof && state.open.len() > 0 && word == "oneof"@ ==> at + 2 < tokens.len()
                && tokens[at + 2] == "{"@
            &&& !state.oneof && word == "enum"@ ==> at + 3 < tokens.len() && tokens[at + 2] == "{"@
            &&& word == "option"@ || !state.oneof && (word == "reserved"@ || word == "extensions"@)
                || state.open.len() == 0 && (word == "syntax"@ || word == "edition"@) ==> exists|
                last: int,
            |
                at < last < tokens.len() && #[trigger] tokens[last] == ";"@
        }),
{
    grammar::lemma_words();
    lemma_words_differ();
    lemma_skipped(tokens, state.at + 1, ";"@);
    if let Ok(next) = grammar::skip_past(tokens, state.at + 1, ";"@) {
        assert(tokens[next - 1] == ";"@);
    }
}

proof fn lemma_skipped_blocks(tokens: Seq<Seq<char>>, at: int, depth: nat)
    requires
        0 <= at <= tokens.len(),
        depth > 0,
    ensures
        grammar::skip_blocks(tokens, at, depth) matches Ok(next) ==> {
            let words = tokens.subrange(at, next);
            &&& at < next <= tokens.len()
            &&& braces_open(words, words.len() as int) == -(depth as int)
            &&& forall|n: int| 0 <= n < words.len() ==> #[trigger] braces_open(words, n) > -(
            depth as int)
        },
    decreases tokens.len() - at,
{
    lemma_words_differ();
    if at < tokens.len() {
        if let Ok(next) = grammar::skip_blocks(tokens, at, depth) {
            let words = tokens.subrange(at, next);
            let after = if tokens[at] == "{"@ {
                depth as int + 1
            } else if tokens[at] == "}"@ {
                depth as int - 1
            } else {
                depth as int
            };
            if after > 0 {
                lemma_skipped_blocks(tokens, at + 1, after as nat);
                let rest = tokens.subrange(at + 1, next);
                assert(words[0] == tokens[at]);
                assert(braces_open(words, 0) == 0);
                assert(braces_open(words, 1) == after - depth);
                assert forall|n: int| 0 <= n <= rest.len() implies braces_open(words, n + 1)
                    == #[trigger] braces_open(rest, n) + (after - depth) by {
                    lemma_braces_shift(words, rest, n);
                }
                assert(braces_open(words, rest.len() as int + 1) == braces_open(rest, rest.len() as int)
                    + (after - depth));
                assert forall|n: int| 0 <= n < words.len() implies #[trigger] braces_open(words, n)
                    > -(depth as int) by {
                    if n > 0 {
                        assert(braces_open(words, (n - 1) + 1) == braces_open(rest, n - 1) + (after
                            - depth));
                        assert(braces_open(rest, n - 1) > -after);
                    }
                }
            } else {
                assert(grammar::skip_blocks(tokens, at + 1, 0) == Ok::<int, Seq<char>>(at + 1));
                assert(words.len() == 1 && words[0] == "}"@);
                assert(braces_open(words, 1) == braces_open(words, 0) - 1);
            }
        }
    }
}

proof fn lemma_braces_shift(words: Seq<Seq<char>>, rest: Seq<Seq<char>>, n: int)
    requires
        words.len() == rest.len() + 1,
        forall|i: int| 0 <= i < rest.len() ==> #[trigger] rest[i] == words[i + 1],
        0 <= n <= rest.len(),
    ensures
        braces_open(words, n + 1) == braces_open(rest, n) + braces_open(words, 1),
    decreases n,
{
    if n > 0 {
        lemma_braces_shift(words, rest, n - 1);
        assert(rest[n - 1] == words[n]);
    }
}

/// An enum is read up to the brace that closes its own, the first that does.
pub proof fn law_an_enum_ends_at_its_own_brace(tokens: Seq<Seq<char>>, state: State)
    requires
        0 <= state.at < tokens.len(),
        !state.oneof,
        tokens[state.at] == "enum"@,
    ensures
        grammar::step(tokens, state) matches Ok(next) ==> {
            let words = tokens.subrange(state.at + 3, next.at);
            &&& state.at + 3 < next.at <= tokens.len()
            &&& tokens[state.at + 2] == "{"@
            &&& tokens[next.at - 1] == "}"@
            &&& braces_open(words, words.len() as int) == -1
            &&& forall|n: int| 0 <= n < words.len() ==> #[trigger] braces_open(words, n) >= 0
        },
{
    grammar::lemma_words();
    lemma_words_differ();
    if state.at + 3 <= tokens.len() {
        lemma_skipped_blocks(tokens, state.at + 3, 1);
        if let Ok(next) = grammar::step(tokens, state) {
            let words = tokens.subrange(state.at + 3, next.at);
            let n = words.len() as int;
            assert(braces_open(words, n - 1) > -1);
            assert(words[n - 1] == tokens[next.at - 1]);
        }
    }
}

} // verus!
