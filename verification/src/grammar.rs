//! The grammar of a `.proto` file over its tokens, and what each statement
//! adds to the file.
//!
//! Reading is a run of steps. A step reads one statement, one field, or the
//! end of what is open, and goes from one [`State`] to the next; the run ends
//! where no message is open and no token is left. A step that cannot be made
//! is the reason why the text is no such file.
use crate::proto;
use crate::proto::{FieldModel, FileModel, KindModel};
use crate::text;
use vstd::prelude::*;

verus! {

/// A field whose type is a name, which stands for something only once the
/// whole file is known.
pub struct Pending {
    /// The full name of the message.
    pub message: Seq<char>,
    /// The field's number in it.
    pub number: u32,
    /// The names of the messages around the field, the outermost first.
    pub scope: Seq<Seq<char>>,
    /// The type as written.
    pub written: Seq<char>,
}

/// How far a file is read, and what it says so far.
#[verifier::ext_equal]
pub struct State {
    /// The index of the next token.
    pub at: int,
    /// The names of the messages that are open, the outermost first.
    pub open: Seq<Seq<char>>,
    /// Whether a `oneof` of the innermost is open.
    pub oneof: bool,
    /// What the file says so far.
    pub file: FileModel,
    /// The fields whose type is a name, in the order they were read.
    pub pending: Seq<Pending>,
}

/// A field as it is read.
pub struct FieldRead {
    pub field: FieldModel,
    pub number: u32,
    /// The type as written, where it is a name.
    pub written: Option<Seq<char>>,
    /// The index of the token after it.
    pub next: int,
}

/// The token at `at`, empty where there is none.
pub open spec fn token(tokens: Seq<Seq<char>>, at: int) -> Seq<char> {
    if 0 <= at < tokens.len() {
        tokens[at]
    } else {
        Seq::empty()
    }
}

/// Why a definition that goes on past the last token is refused.
pub open spec fn cut_short() -> Seq<char> {
    "the file ends inside a definition"@
}

/// The index after the token at `at`, which has to be `what`.
pub open spec fn expect(tokens: Seq<Seq<char>>, at: int, what: Seq<char>) -> Result<
    int,
    Seq<char>,
> {
    if at >= tokens.len() {
        Err(cut_short())
    } else if tokens[at] == what {
        Ok(at + 1)
    } else {
        Err(
            "expected "@ + text::debug_text(what) + ", found "@ + text::debug_text(tokens[at]),
        )
    }
}

/// The index after the first `what` at or after `at`.
pub open spec fn skip_past(tokens: Seq<Seq<char>>, at: int, what: Seq<char>) -> Result<
    int,
    Seq<char>,
>
    decreases tokens.len() - at,
{
    if at >= tokens.len() {
        Err(cut_short())
    } else if tokens[at] == what {
        Ok(at + 1)
    } else {
        skip_past(tokens, at + 1, what)
    }
}

/// The index after the `}` that closes the outermost of the `depth` blocks that
/// are open at `at`.
pub open spec fn skip_blocks(tokens: Seq<Seq<char>>, at: int, depth: nat) -> Result<int, Seq<char>>
    decreases tokens.len() - at,
{
    if depth == 0 {
        Ok(at)
    } else if at >= tokens.len() {
        Err(cut_short())
    } else if tokens[at] == "{"@ {
        skip_blocks(tokens, at + 1, depth + 1)
    } else if tokens[at] == "}"@ {
        skip_blocks(tokens, at + 1, (depth - 1) as nat)
    } else {
        skip_blocks(tokens, at + 1, depth)
    }
}

/// Whether a token is a label of a field.
pub open spec fn label(token: Seq<char>) -> bool {
    token == "repeated"@ || token == "optional"@ || token == "required"@
}

/// The index of the first token at or after `at` that is no label.
pub open spec fn labels_end(tokens: Seq<Seq<char>>, at: int) -> int
    decreases tokens.len() - at,
{
    if 0 <= at < tokens.len() && label(tokens[at]) {
        labels_end(tokens, at + 1)
    } else {
        at
    }
}

/// The type that begins at `at`: its kind as far as that is known, the name
/// that has to be looked up for the rest, and the index after it. A map is
/// `map < key , value >`; a key that is no scalar counts as a varint.
pub open spec fn field_type(tokens: Seq<Seq<char>>, at: int) -> Result<
    (KindModel, Option<Seq<char>>, int),
    Seq<char>,
> {
    if at >= tokens.len() {
        Err(cut_short())
    } else if tokens[at] == "map"@ {
        match expect(tokens, at + 1, "<"@) {
            Err(why) => Err(why),
            Ok(key) => if key >= tokens.len() {
                Err(cut_short())
            } else {
                match expect(tokens, key + 1, ","@) {
                    Err(why) => Err(why),
                    Ok(value) => if value >= tokens.len() {
                        Err(cut_short())
                    } else {
                        match expect(tokens, value + 1, ">"@) {
                            Err(why) => Err(why),
                            Ok(next) => Ok(
                                (
                                    KindModel::MapOf(
                                        Box::new(
                                            match proto::scalar_kind(tokens[key]) {
                                                Some(kind) => kind,
                                                None => KindModel::Varint,
                                            },
                                        ),
                                        Box::new(KindModel::Opaque),
                                    ),
                                    Some(tokens[value]),
                                    next,
                                ),
                            ),
                        }
                    },
                }
            },
        }
    } else {
        match proto::scalar_kind(tokens[at]) {
            Some(kind) => Ok((kind, None, at + 1)),
            None => Ok((KindModel::Opaque, Some(tokens[at]), at + 1)),
        }
    }
}

/// The index of the token after the options in brackets, where there are any.
pub open spec fn skip_options(tokens: Seq<Seq<char>>, at: int) -> Result<int, Seq<char>> {
    if token(tokens, at) == "["@ {
        skip_past(tokens, at, "]"@)
    } else {
        Ok(at)
    }
}

/// The field of the message `message` that begins at `at`: labels where they
/// may stand, of which the last counts, a type, a name, `=`, a number, options
/// in brackets, `;`.
pub open spec fn field(
    tokens: Seq<Seq<char>>,
    at: int,
    message: Seq<char>,
    labels: bool,
) -> Result<FieldRead, Seq<char>> {
    let typed = if labels {
        labels_end(tokens, at)
    } else {
        at
    };
    match field_type(tokens, typed) {
        Err(why) => Err(why),
        Ok((kind, written, named)) => if named >= tokens.len() {
            Err(cut_short())
        } else {
            match expect(tokens, named + 1, "="@) {
                Err(why) => Err(why),
                Ok(numbered) => if numbered >= tokens.len() {
                    Err(cut_short())
                } else {
                    match text::number(tokens[numbered]) {
                        None => Err(
                            "field "@ + tokens[named] + " of "@ + message + " has no number"@,
                        ),
                        Some(number) => match skip_options(tokens, numbered + 1) {
                            Err(why) => Err(why),
                            Ok(end) => match expect(tokens, end, ";"@) {
                                Err(why) => Err(why),
                                Ok(next) => Ok(
                                    FieldRead {
                                        field: FieldModel {
                                            name: tokens[named],
                                            kind,
                                            repeated: typed > at && tokens[typed - 1]
                                                == "repeated"@,
                                        },
                                        number,
                                        written,
                                        next,
                                    },
                                ),
                            },
                        },
                    }
                },
            }
        },
    }
}

/// The text without the double quotes around it.
pub open spec fn unquoted(s: Seq<char>) -> Seq<char>
    decreases s.len(),
{
    if s.len() > 0 && s[0] == '"' {
        unquoted(s.drop_first())
    } else if s.len() > 0 && s.last() == '"' {
        unquoted(s.drop_last())
    } else {
        s
    }
}

impl State {
    /// Nothing read, nothing said.
    pub open spec fn start() -> State {
        State {
            at: 0,
            open: Seq::empty(),
            oneof: false,
            file: proto::nothing(),
            pending: Seq::empty(),
        }
    }

    /// The state with its next token at `at`.
    pub open spec fn to(self, at: int) -> State {
        State { at, ..self }
    }

    /// The full name of the innermost open message.
    pub open spec fn message(self) -> Seq<char> {
        proto::full_name_of(self.file.package, self.open.drop_last(), self.open.last())
    }

    /// The state after a field of the innermost open message is read.
    pub open spec fn with_field(self, read: FieldRead) -> State {
        State {
            at: read.next,
            file: FileModel {
                messages: proto::with_field(
                    self.file.messages,
                    self.message(),
                    read.number,
                    read.field,
                ),
                ..self.file
            },
            pending: match read.written {
                Some(written) => self.pending.push(
                    Pending {
                        message: self.message(),
                        number: read.number,
                        scope: self.open,
                        written,
                    },
                ),
                None => self.pending,
            },
            ..self
        }
    }
}

/// The state after the field at hand, if it can be read.
pub open spec fn read_field(tokens: Seq<Seq<char>>, state: State, labels: bool) -> Result<
    State,
    Seq<char>,
> {
    match field(tokens, state.at, state.message(), labels) {
        Err(why) => Err(why),
        Ok(read) => Ok(state.with_field(read)),
    }
}

/// The state at `next`, if there is one.
pub open spec fn moved(state: State, next: Result<int, Seq<char>>) -> Result<State, Seq<char>> {
    match next {
        Err(why) => Err(why),
        Ok(at) => Ok(state.to(at)),
    }
}

/// The state after `package name ;`.
pub open spec fn read_package(tokens: Seq<Seq<char>>, state: State) -> Result<State, Seq<char>> {
    let name = state.at + 1;
    if name >= tokens.len() {
        Err(cut_short())
    } else {
        moved(
            State { file: FileModel { package: tokens[name], ..state.file }, ..state },
            expect(tokens, name + 1, ";"@),
        )
    }
}

/// The state after `import path ;`, with `public` or `weak` before the path or
/// not.
pub open spec fn read_import(tokens: Seq<Seq<char>>, state: State) -> Result<State, Seq<char>> {
    let first = token(tokens, state.at + 1);
    let path = if first == "public"@ || first == "weak"@ {
        state.at + 2
    } else {
        state.at + 1
    };
    if path >= tokens.len() {
        Err(cut_short())
    } else {
        moved(
            State {
                file: FileModel {
                    imports: state.file.imports.push(unquoted(tokens[path])),
                    ..state.file
                },
                ..state
            },
            expect(tokens, path + 1, ";"@),
        )
    }
}

/// The state after `message name {`: the message is declared, and open.
pub open spec fn read_message(tokens: Seq<Seq<char>>, state: State) -> Result<State, Seq<char>> {
    let name = state.at + 1;
    if name >= tokens.len() {
        Err(cut_short())
    } else {
        moved(
            State {
                open: state.open.push(tokens[name]),
                file: FileModel {
                    messages: proto::declared(
                        state.file.messages,
                        proto::full_name_of(state.file.package, state.open, tokens[name]),
                    ),
                    ..state.file
                },
                ..state
            },
            expect(tokens, name + 1, "{"@),
        )
    }
}

/// The state after `enum name { .. }`, whose values are not looked at.
pub open spec fn read_enum(tokens: Seq<Seq<char>>, state: State) -> Result<State, Seq<char>> {
    let name = state.at + 1;
    if name >= tokens.len() {
        Err(cut_short())
    } else {
        match expect(tokens, name + 1, "{"@) {
            Err(why) => Err(why),
            Ok(inside) => moved(
                State {
                    file: FileModel {
                        enums: state.file.enums.push(
                            proto::full_name_of(state.file.package, state.open, tokens[name]),
                        ),
                        ..state.file
                    },
                    ..state
                },
                skip_blocks(tokens, inside, 1),
            ),
        }
    }
}

/// The state after the statement at hand, of a message the head alone.
pub open spec fn statement(tokens: Seq<Seq<char>>, state: State) -> Result<State, Seq<char>> {
    let word = token(tokens, state.at);
    if state.at >= tokens.len() {
        Err(cut_short())
    } else if word == "syntax"@ || word == "edition"@ || word == "option"@ || word == "reserved"@ || word
        == "extensions"@ {
        moved(state, skip_past(tokens, state.at + 1, ";"@))
    } else if word == "package"@ {
        read_package(tokens, state)
    } else if word == "import"@ {
        read_import(tokens, state)
    } else if word == "message"@ {
        read_message(tokens, state)
    } else if word == "enum"@ {
        read_enum(tokens, state)
    } else if word == ";"@ {
        Ok(state.to(state.at + 1))
    } else {
        Err(text::debug_text(word) + " does not begin a statement"@)
    }
}

/// Whether a word begins a statement.
pub open spec fn begins(word: Seq<char>) -> bool {
    nested(word) || word == "syntax"@ || word == "edition"@ || word == "package"@ || word
        == "import"@ || word == ";"@
}

/// Whether a word begins a statement inside a message.
pub open spec fn nested(word: Seq<char>) -> bool {
    word == "message"@ || word == "enum"@ || word == "option"@ || word == "reserved"@ || word
        == "extensions"@
}

/// The next state inside a message.
pub open spec fn in_message(tokens: Seq<Seq<char>>, state: State) -> Result<State, Seq<char>> {
    let word = token(tokens, state.at);
    if word == "}"@ {
        Ok(State { open: state.open.drop_last(), ..state.to(state.at + 1) })
    } else if nested(word) {
        statement(tokens, state)
    } else if word == "oneof"@ {
        moved(State { oneof: true, ..state }, expect(tokens, state.at + 2, "{"@))
    } else if word.len() == 0 {
        Err("message "@ + state.message() + " never closes"@)
    } else {
        read_field(tokens, state, true)
    }
}

/// The next state inside a `oneof`.
pub open spec fn in_oneof(tokens: Seq<Seq<char>>, state: State) -> Result<State, Seq<char>> {
    let word = token(tokens, state.at);
    if word == "}"@ {
        Ok(State { oneof: false, ..state.to(state.at + 1) })
    } else if word == "option"@ {
        moved(state, skip_past(tokens, state.at + 1, ";"@))
    } else {
        read_field(tokens, state, false)
    }
}

/// The next state.
pub open spec fn step(tokens: Seq<Seq<char>>, state: State) -> Result<State, Seq<char>> {
    if state.open.len() == 0 {
        statement(tokens, state)
    } else if state.oneof {
        in_oneof(tokens, state)
    } else {
        in_message(tokens, state)
    }
}

/// The state at the end of the file, if it is one.
pub open spec fn run(tokens: Seq<Seq<char>>, state: State) -> Result<State, Seq<char>>
    decreases tokens.len() - state.at,
    when 0 <= state.at
{
    if state.open.len() == 0 && state.at >= tokens.len() {
        Ok(state)
    } else {
        proof {
            lemma_step(tokens, state);
        }
        match step(tokens, state) {
            Err(why) => Err(why),
            Ok(next) => run(tokens, next),
        }
    }
}

/// The state once no more than `depth` messages are open, and no `oneof` is: the
/// steps from `state` on until that is so.
pub open spec fn closed_to(tokens: Seq<Seq<char>>, state: State, depth: nat) -> Result<
    State,
    Seq<char>,
>
    decreases tokens.len() - state.at,
    when 0 <= state.at
{
    if state.open.len() <= depth && !state.oneof {
        Ok(state)
    } else {
        proof {
            lemma_step(tokens, state);
        }
        match step(tokens, state) {
            Err(why) => Err(why),
            Ok(next) => closed_to(tokens, next, depth),
        }
    }
}

/// The state after what began with the step to `first`, once all that it opened
/// is closed again.
pub open spec fn finished(
    tokens: Seq<Seq<char>>,
    first: Result<State, Seq<char>>,
    depth: nat,
) -> Result<State, Seq<char>> {
    match first {
        Err(why) => Err(why),
        Ok(next) => closed_to(tokens, next, depth),
    }
}

/// The state after the one statement at hand, with all that is inside it.
pub open spec fn read_whole(tokens: Seq<Seq<char>>, state: State) -> Result<State, Seq<char>> {
    finished(tokens, statement(tokens, state), state.open.len())
}

/// The file once the type of one of its fields is looked up.
pub open spec fn settle(file: FileModel, pending: Pending) -> FileModel {
    FileModel {
        messages: proto::settled(
            file.messages,
            pending.message,
            pending.number,
            proto::resolved(file, pending.scope, pending.written),
        ),
        ..file
    }
}

/// Whether a field whose type is a name is that field.
pub open spec fn is_of(pending: Pending, message: Seq<char>, number: u32) -> bool {
    pending.message == message && pending.number == number
}

/// Whether one of those fields is that field.
pub open spec fn occurs(pending: Seq<Pending>, message: Seq<char>, number: u32) -> bool {
    exists|i: int| 0 <= i < pending.len() && is_of(#[trigger] pending[i], message, number)
}

/// The file once the types of all those fields are looked up, one after the
/// other. Where a number is given to more than one of them, the last has it, and
/// no type is looked up for the others.
pub open spec fn settle_all(file: FileModel, pending: Seq<Pending>) -> FileModel
    decreases pending.len(),
{
    if pending.len() == 0 {
        file
    } else if occurs(pending.drop_first(), pending[0].message, pending[0].number) {
        settle_all(file, pending.drop_first())
    } else {
        settle_all(settle(file, pending[0]), pending.drop_first())
    }
}

/// The file that the tokens are, or why they are none.
pub open spec fn file_of_tokens(tokens: Seq<Seq<char>>) -> Result<FileModel, Seq<char>> {
    match run(tokens, State::start()) {
        Err(why) => Err(why),
        Ok(end) => Ok(settle_all(end.file, end.pending)),
    }
}

/// The file that a text is, or why it is none.
pub open spec fn file_of(source: Seq<char>) -> Result<FileModel, Seq<char>> {
    match crate::lexer::tokens_of(source) {
        Err(why) => Err(why),
        Ok(tokens) => file_of_tokens(tokens),
    }
}

/// What is skipped up to a token ends after it, among the tokens.
pub proof fn lemma_skip_past(tokens: Seq<Seq<char>>, at: int, what: Seq<char>)
    requires
        0 <= at,
    ensures
        skip_past(tokens, at, what) matches Ok(next) ==> at < next <= tokens.len(),
    decreases tokens.len() - at,
{
    if at < tokens.len() && tokens[at] != what {
        lemma_skip_past(tokens, at + 1, what);
    }
}

/// Blocks that are skipped end among the tokens.
pub proof fn lemma_skip_blocks(tokens: Seq<Seq<char>>, at: int, depth: nat)
    requires
        0 <= at <= tokens.len(),
    ensures
        skip_blocks(tokens, at, depth) matches Ok(next) ==> at <= next <= tokens.len(),
    decreases tokens.len() - at,
{
    if depth > 0 && at < tokens.len() {
        if tokens[at] == "{"@ {
            lemma_skip_blocks(tokens, at + 1, depth + 1);
        } else if tokens[at] == "}"@ {
            lemma_skip_blocks(tokens, at + 1, (depth - 1) as nat);
        } else {
            lemma_skip_blocks(tokens, at + 1, depth);
        }
    }
}

/// Labels end among the tokens.
pub proof fn lemma_labels_end(tokens: Seq<Seq<char>>, at: int)
    requires
        0 <= at <= tokens.len(),
    ensures
        at <= labels_end(tokens, at) <= tokens.len(),
    decreases tokens.len() - at,
{
    if at < tokens.len() && label(tokens[at]) {
        lemma_labels_end(tokens, at + 1);
    }
}

/// A field takes at least one token, all of them there.
pub proof fn lemma_field(tokens: Seq<Seq<char>>, at: int, message: Seq<char>, labels: bool)
    requires
        0 <= at,
    ensures
        field(tokens, at, message, labels) matches Ok(read) ==> at < read.next <= tokens.len(),
{
    if at < tokens.len() {
        lemma_labels_end(tokens, at);
    }
    let typed = if labels {
        labels_end(tokens, at)
    } else {
        at
    };
    if let Ok((_, _, named)) = field_type(tokens, typed) {
        lemma_skip_past(tokens, named + 3, "]"@);
    }
}

/// A step takes at least one token, all of them there.
pub proof fn lemma_step(tokens: Seq<Seq<char>>, state: State)
    requires
        0 <= state.at,
    ensures
        step(tokens, state) matches Ok(next) ==> state.at < next.at <= tokens.len(),
        statement(tokens, state) matches Ok(next) ==> state.at < next.at <= tokens.len(),
{
    lemma_words();
    lemma_skip_past(tokens, state.at + 1, ";"@);
    if state.at + 3 <= tokens.len() {
        lemma_skip_blocks(tokens, state.at + 3, 1);
    }
    lemma_field(tokens, state.at, state.message(), true);
    lemma_field(tokens, state.at, state.message(), false);
}

/// What is closed down to `outer` messages is first closed down to more.
pub proof fn lemma_closed_to(tokens: Seq<Seq<char>>, state: State, inner: nat, outer: nat)
    requires
        0 <= state.at,
        outer <= inner,
    ensures
        closed_to(tokens, state, outer) == (match closed_to(tokens, state, inner) {
            Err(why) => Err(why),
            Ok(mid) => closed_to(tokens, mid, outer),
        }),
        closed_to(tokens, state, inner) matches Ok(mid) ==> state.at <= mid.at,
    decreases tokens.len() - state.at,
{
    if !(state.open.len() <= inner && !state.oneof) {
        lemma_step(tokens, state);
        if let Ok(next) = step(tokens, state) {
            lemma_closed_to(tokens, next, inner, outer);
        }
    }
}

/// Inside a message, reading goes on after all that the next step opens is closed.
pub proof fn lemma_finished(tokens: Seq<Seq<char>>, state: State, depth: nat)
    requires
        0 <= state.at,
        state.open.len() > depth,
    ensures
        closed_to(tokens, state, depth) == (match finished(
            tokens,
            step(tokens, state),
            state.open.len(),
        ) {
            Err(why) => Err(why),
            Ok(mid) => closed_to(tokens, mid, depth),
        }),
{
    lemma_step(tokens, state);
    if let Ok(next) = step(tokens, state) {
        lemma_closed_to(tokens, next, state.open.len(), depth);
    }
}

/// A `oneof` is open only inside a message, and stays so.
pub proof fn lemma_step_oneof(tokens: Seq<Seq<char>>, state: State)
    requires
        state.oneof ==> state.open.len() > 0,
    ensures
        step(tokens, state) matches Ok(next) ==> next.oneof ==> next.open.len() > 0,
{
}

/// No word of the language is empty, and those that begin a statement inside a
/// message differ from the brace that closes it.
pub proof fn lemma_words()
    ensures
        "}"@.len() > 0,
        forall|word: Seq<char>| #[trigger] nested(word) ==> word != "}"@,
        "oneof"@ != "}"@,
        !nested("oneof"@),
        !nested("package"@),
        !nested("import"@),
        "message"@ != "syntax"@,
        "message"@ != "edition"@,
        "message"@ != "option"@,
        "message"@ != "reserved"@,
        "message"@ != "extensions"@,
        "message"@ != "package"@,
        "message"@ != "import"@,
        "oneof"@.len() > 0,
        "option"@.len() > 0,
        "syntax"@.len() > 0,
        "edition"@.len() > 0,
        "reserved"@.len() > 0,
        "extensions"@.len() > 0,
        "package"@.len() > 0,
        "import"@.len() > 0,
        "message"@.len() > 0,
        "enum"@.len() > 0,
        ";"@.len() > 0,
{
    reveal_strlit("}");
    reveal_strlit("oneof");
    reveal_strlit("option");
    reveal_strlit("syntax");
    reveal_strlit("edition");
    reveal_strlit("reserved");
    reveal_strlit("extensions");
    reveal_strlit("package");
    reveal_strlit("import");
    reveal_strlit("message");
    reveal_strlit("enum");
    reveal_strlit(";");
    assert("}"@.len() == 1);
    assert("message"@[0] == 'm');
    assert("edition"@[0] == 'e');
    assert("package"@[0] == 'p');
    assert("import"@[0] == 'i' && "option"@[0] == 'o');
    assert("oneof"@.len() == 5 && "message"@.len() == 7 && "enum"@.len() == 4);
    assert("option"@.len() == 6 && "reserved"@.len() == 8 && "extensions"@.len() == 10);
}

} // verus!
