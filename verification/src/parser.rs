//! Reading the tokens of a `.proto` file into the file they are.
use crate::grammar;
use crate::grammar::{Pending, State};
use crate::laws::schema;
use crate::lexer;
use crate::proto;
use crate::proto::{Field, File, Kind};
use crate::text;
use vstd::prelude::*;
use vstd::string::*;

verus! {

/// A field whose type is a name: message, number, scope, type as written.
struct Deferred {
    message: String,
    number: u32,
    scope: Vec<String>,
    written: String,
}

/// A reader of tokens, and what it has read so far.
struct Parser {
    tokens: Vec<String>,
    at: usize,
    file: File,
    pending: Vec<Deferred>,
}

impl View for Deferred {
    type V = Pending;

    closed spec fn view(&self) -> Pending {
        Pending {
            message: self.message@,
            number: self.number,
            scope: proto::texts(self.scope@),
            written: self.written@,
        }
    }
}

/// `expected what, found found`.
fn unexpected(what: &str, found: &str) -> (out: String)
    ensures
        out@ == "expected "@ + text::debug_text(what@) + ", found "@ + text::debug_text(found@),
{
    let mut out: String = "expected ".to_string();
    out.append(text::quoted(what).as_str());
    out.append(", found ");
    out.append(text::quoted(found).as_str());
    out
}

/// `path` without the double quotes around it.
fn bare_path(path: &str) -> (out: String)
    ensures
        out@ == grammar::unquoted(path@),
{
    let chars = text::characters(path);
    let mut from: usize = 0;
    let mut to: usize = chars.len();
    assert(path@.subrange(0, path@.len() as int) == path@);
    while from < to && chars[from] == '"'
        invariant
            chars@ == path@,
            from <= to == chars.len(),
            grammar::unquoted(path@.subrange(from as int, to as int)) == grammar::unquoted(path@),
        decreases to - from,
    {
        assert(path@.subrange(from as int, to as int).drop_first() == path@.subrange(
            from + 1,
            to as int,
        ));
        from = from + 1;
    }
    while from < to && chars[to - 1] == '"'
        invariant
            chars@ == path@,
            from <= to <= chars.len(),
            from < to ==> chars@[from as int] != '"',
            grammar::unquoted(path@.subrange(from as int, to as int)) == grammar::unquoted(path@),
        decreases to - from,
    {
        assert(path@.subrange(from as int, to as int).drop_last() == path@.subrange(
            from as int,
            to - 1,
        ));
        to = to - 1;
    }
    text::string_of(&chars, from, to)
}

impl Parser {
    /// The tokens as sequences of characters.
    spec fn words(&self) -> Seq<Seq<char>> {
        proto::texts(self.tokens@)
    }

    /// How far the tokens are read while the messages `open` are open, a
    /// `oneof` of the innermost or not.
    spec fn state(&self, open: Seq<Seq<char>>, oneof: bool) -> State {
        State {
            at: self.at as int,
            open,
            oneof,
            file: self.file@,
            pending: self.pending@.map_values(|deferred: Deferred| deferred@),
        }
    }

    /// Whether the parser stands at a token or past the last.
    spec fn wf(&self) -> bool {
        self.at <= self.tokens@.len()
    }

    /// Whether the two differ only in where they stand.
    spec fn moved_from(&self, before: &Parser) -> bool {
        &&& self.tokens == before.tokens
        &&& self.file == before.file
        &&& self.pending == before.pending
        &&& before.at <= self.at
        &&& self.wf()
    }

    fn done(&self) -> (answer: bool)
        ensures
            answer == (self.at >= self.tokens@.len()),
    {
        self.at >= self.tokens.len()
    }

    /// The next token, empty where there is none.
    fn peek(&self) -> (out: &str)
        ensures
            out@ == grammar::token(self.words(), self.at as int),
    {
        if self.at < self.tokens.len() {
            self.tokens[self.at].as_str()
        } else {
            let nothing = "";
            proof {
                reveal_strlit("");
                assert(nothing@ == Seq::<char>::empty());
            }
            nothing
        }
    }

    /// Whether the next token is `word`.
    fn sees(&self, word: &str) -> (answer: bool)
        ensures
            answer == (grammar::token(self.words(), self.at as int) == word@),
    {
        text::same(self.peek(), word)
    }

    /// The next token, which is taken.
    fn take(&mut self) -> (out: Result<String, String>)
        requires
            old(self).wf(),
        ensures
            final(self).moved_from(old(self)),
            match out {
                Ok(token) => {
                    &&& old(self).at < old(self).tokens@.len()
                    &&& final(self).at == old(self).at + 1
                    &&& token@ == old(self).words()[old(self).at as int]
                },
                Err(why) => {
                    &&& old(self).at >= old(self).tokens@.len()
                    &&& why@ == grammar::cut_short()
                },
            },
    {
        if self.at < self.tokens.len() {
            let token = self.tokens[self.at].clone();
            self.at = self.at + 1;
            Ok(token)
        } else {
            Err("the file ends inside a definition".to_string())
        }
    }

    /// Take the next token, which has to be `token`.
    fn expect(&mut self, token: &str) -> (out: Result<(), String>)
        requires
            old(self).wf(),
        ensures
            final(self).moved_from(old(self)),
            match out {
                Ok(()) => grammar::expect(old(self).words(), old(self).at as int, token@) == Ok::<
                    int,
                    Seq<char>,
                >(final(self).at as int),
                Err(why) => grammar::expect(old(self).words(), old(self).at as int, token@)
                    == Err::<int, Seq<char>>(why@),
            },
    {
        let found = self.take()?;
        if text::same(found.as_str(), token) {
            Ok(())
        } else {
            Err(unexpected(token, found.as_str()))
        }
    }

    /// Everything up to and including the next `token`.
    fn skip_past(&mut self, token: &str) -> (out: Result<(), String>)
        requires
            old(self).wf(),
        ensures
            final(self).moved_from(old(self)),
            match out {
                Ok(()) => grammar::skip_past(old(self).words(), old(self).at as int, token@)
                    == Ok::<int, Seq<char>>(final(self).at as int),
                Err(why) => grammar::skip_past(old(self).words(), old(self).at as int, token@)
                    == Err::<int, Seq<char>>(why@),
            },
    {
        loop
            invariant
                self.moved_from(old(self)),
                grammar::skip_past(old(self).words(), old(self).at as int, token@)
                    == grammar::skip_past(self.words(), self.at as int, token@),
            decreases self.tokens@.len() - self.at,
        {
            let found = self.take()?;
            if text::same(found.as_str(), token) {
                return Ok(());
            }
        }
    }

    /// Everything up to and including the next `;`.
    fn skip_statement(&mut self) -> (out: Result<(), String>)
        requires
            old(self).wf(),
        ensures
            final(self).moved_from(old(self)),
            match out {
                Ok(()) => grammar::skip_past(old(self).words(), old(self).at as int, ";"@) == Ok::<
                    int,
                    Seq<char>,
                >(final(self).at as int),
                Err(why) => grammar::skip_past(old(self).words(), old(self).at as int, ";"@)
                    == Err::<int, Seq<char>>(why@),
            },
    {
        self.skip_past(";")
    }

    /// Everything up to and including the `}` of the block that is open.
    fn skip_block(&mut self) -> (out: Result<(), String>)
        requires
            old(self).wf(),
            old(self).at > 0,
        ensures
            final(self).moved_from(old(self)),
            match out {
                Ok(()) => grammar::skip_blocks(old(self).words(), old(self).at as int, 1) == Ok::<
                    int,
                    Seq<char>,
                >(final(self).at as int),
                Err(why) => grammar::skip_blocks(old(self).words(), old(self).at as int, 1)
                    == Err::<int, Seq<char>>(why@),
            },
    {
        let mut depth: usize = 1;
        while depth > 0
            invariant
                self.moved_from(old(self)),
                depth <= self.at,
                grammar::skip_blocks(old(self).words(), old(self).at as int, 1)
                    == grammar::skip_blocks(self.words(), self.at as int, depth as nat),
            decreases self.tokens@.len() - self.at,
        {
            let found = self.take()?;
            if text::same(found.as_str(), "{") {
                depth = depth + 1;
            } else if text::same(found.as_str(), "}") {
                depth = depth - 1;
            }
        }
        Ok(())
    }

    /// The type at hand: its kind as far as that is known, and the name that
    /// has to be looked up for the rest.
    fn field_type(&mut self) -> (out: Result<(Kind, Option<String>), String>)
        requires
            old(self).wf(),
        ensures
            final(self).moved_from(old(self)),
            match out {
                Ok((kind, None)) => grammar::field_type(old(self).words(), old(self).at as int)
                    == Ok::<(proto::KindModel, Option<Seq<char>>, int), Seq<char>>(
                    (kind@, None, final(self).at as int),
                ),
                Ok((kind, Some(written))) => grammar::field_type(
                    old(self).words(),
                    old(self).at as int,
                ) == Ok::<(proto::KindModel, Option<Seq<char>>, int), Seq<char>>(
                    (kind@, Some(written@), final(self).at as int),
                ),
                Err(why) => grammar::field_type(old(self).words(), old(self).at as int) == Err::<
                    (proto::KindModel, Option<Seq<char>>, int),
                    Seq<char>,
                >(why@),
            },
    {
        let first = self.take()?;
        if text::same(first.as_str(), "map") {
            self.expect("<")?;
            let key = self.take()?;
            self.expect(",")?;
            let value = self.take()?;
            self.expect(">")?;
            let key = match proto::scalar(key.as_str()) {
                Some(kind) => kind,
                None => Kind::Varint,
            };
            assert(Kind::Opaque.model() == proto::KindModel::Opaque);
            Ok((Kind::MapOf(Box::new(key), Box::new(Kind::Opaque)), Some(value)))
        } else {
            match proto::scalar(first.as_str()) {
                Some(kind) => Ok((kind, None)),
                None => Ok((Kind::Opaque, Some(first))),
            }
        }
    }

    /// The labels at hand; whether the last of them is `repeated`.
    fn labels(&mut self) -> (repeated: bool)
        requires
            old(self).wf(),
        ensures
            final(self).moved_from(old(self)),
            final(self).at == grammar::labels_end(old(self).words(), old(self).at as int),
            repeated == (final(self).at > old(self).at && old(self).words()[final(self).at - 1]
                == "repeated"@),
    {
        let mut repeated = false;
        while self.at < self.tokens.len() && (self.sees("repeated") || self.sees("optional")
            || self.sees("required"))
            invariant
                self.moved_from(old(self)),
                grammar::labels_end(old(self).words(), old(self).at as int)
                    == grammar::labels_end(self.words(), self.at as int),
                repeated == (self.at > old(self).at && self.words()[self.at - 1] == "repeated"@),
            decreases self.tokens@.len() - self.at,
        {
            repeated = self.sees("repeated");
            self.at = self.at + 1;
        }
        repeated
    }

    /// The field at hand of the message `message`, whose name and those around
    /// it are `scope`.
    fn field(&mut self, message: &str, scope: &Vec<String>, labels: bool) -> (out: Result<
        (),
        String,
    >)
        requires
            old(self).wf(),
            message@ == old(self).state(proto::texts(scope@), !labels).message(),
        ensures
            final(self).wf(),
            final(self).tokens == old(self).tokens,
            match out {
                Ok(()) => grammar::read_field(
                    old(self).words(),
                    old(self).state(proto::texts(scope@), !labels),
                    labels,
                ) == Ok::<State, Seq<char>>(final(self).state(proto::texts(scope@), !labels)),
                Err(why) => {
                    &&& final(self).moved_from(old(self))
                    &&& grammar::read_field(
                        old(self).words(),
                        old(self).state(proto::texts(scope@), !labels),
                        labels,
                    ) == Err::<State, Seq<char>>(why@)
                },
            },
    {
        let repeated = if labels {
            self.labels()
        } else {
            false
        };
        let (kind, deferred) = self.field_type()?;
        let name = self.take()?;
        self.expect("=")?;
        let written = self.take()?;
        let number: u32 = match text::to_number(written.as_str()) {
            Some(number) => number,
            None => {
                let mut why: String = "field ".to_string();
                why.append(name.as_str());
                why.append(" of ");
                why.append(message);
                why.append(" has no number");
                return Err(why);
            },
        };
        if self.sees("[") {
            self.skip_past("]")?;
        }
        self.expect(";")?;
        if let Some(written) = deferred {
            let scope_copy = scope.clone();
            assert(proto::texts(scope_copy@) =~= proto::texts(scope@));
            self.pending.push(
                Deferred { message: message.to_string(), number, scope: scope_copy, written },
            );
        }
        self.file.messages.put(message, number, Field { name, kind, repeated });
        proof {
            let open = proto::texts(scope@);
            let before = old(self).state(open, !labels);
            let read = grammar::field(old(self).words(), before.at, message@, labels)->Ok_0;
            assert(self.state(open, !labels) =~= before.with_field(read));
        }
        Ok(())
    }

    /// Take the next token, which is there.
    fn advance(&mut self)
        requires
            old(self).wf(),
            old(self).at < old(self).tokens@.len(),
        ensures
            final(self).moved_from(old(self)),
            final(self).at == old(self).at + 1,
    {
        let last: usize = self.tokens.len() - 1;
        if self.at <= last {
            self.at = self.at + 1;
        }
    }

    /// The `oneof` at hand in the message `message`, whose name and those
    /// around it are `scope`.
    fn oneof(&mut self, message: &str, scope: &Vec<String>) -> (out: Result<(), String>)
        requires
            old(self).wf(),
            old(self).at < old(self).tokens@.len(),
            old(self).words()[old(self).at as int] == "oneof"@,
            scope@.len() > 0,
            message@ == old(self).state(proto::texts(scope@), false).message(),
        ensures
            final(self).wf(),
            final(self).tokens == old(self).tokens,
            match out {
                Ok(()) => {
                    &&& final(self).at > old(self).at
                    &&& final(self).file.package@ == old(self).file.package@
                    &&& grammar::finished(
                        old(self).words(),
                        grammar::step(
                            old(self).words(),
                            old(self).state(proto::texts(scope@), false),
                        ),
                        scope@.len(),
                    ) == Ok::<State, Seq<char>>(final(self).state(proto::texts(scope@), false))
                },
                Err(why) => grammar::finished(
                    old(self).words(),
                    grammar::step(
                        old(self).words(),
                        old(self).state(proto::texts(scope@), false),
                    ),
                    scope@.len(),
                ) == Err::<State, Seq<char>>(why@),
            },
    {
        let ghost open = proto::texts(scope@);
        proof {
            grammar::lemma_words();
        }
        self.advance();
        if self.at < self.tokens.len() {
            self.advance();
        }
        self.expect("{")?;
        while !self.sees("}")
            invariant
                self.wf(),
                self.tokens == old(self).tokens,
                self.at > old(self).at,
                self.file.package@ == old(self).file.package@,
                scope@.len() > 0,
                open == proto::texts(scope@),
                message@ == self.state(open, false).message(),
                grammar::finished(
                    old(self).words(),
                    grammar::step(old(self).words(), old(self).state(open, false)),
                    scope@.len(),
                ) == grammar::closed_to(self.words(), self.state(open, true), scope@.len()),
            decreases self.tokens@.len() - self.at,
        {
            proof {
                grammar::lemma_words();
                grammar::lemma_step(self.words(), self.state(open, true));
            }
            if self.sees("option") {
                self.advance();
                self.skip_statement()?;
            } else {
                self.field(message, scope, false)?;
            }
        }
        proof {
            grammar::lemma_words();
        }
        self.advance();
        proof {
            let end = self.state(open, false);
            assert(grammar::closed_to(self.words(), end, scope@.len()) == Ok::<State, Seq<char>>(
                end,
            ));
        }
        Ok(())
    }

    /// The statement at hand, with what is inside it.
    fn statement(&mut self, scope: &Vec<String>) -> (out: Result<(), String>)
        requires
            old(self).wf(),
        ensures
            final(self).wf(),
            final(self).tokens == old(self).tokens,
            match out {
                Ok(()) => {
                    &&& final(self).at > old(self).at
                    &&& grammar::nested(grammar::token(old(self).words(), old(self).at as int))
                        ==> final(self).file.package@ == old(self).file.package@
                    &&& grammar::read_whole(
                        old(self).words(),
                        old(self).state(proto::texts(scope@), false),
                    ) == Ok::<State, Seq<char>>(final(self).state(proto::texts(scope@), false))
                    &&& schema::adds(
                        old(self).state(proto::texts(scope@), false),
                        final(self).state(proto::texts(scope@), false),
                    )
                },
                Err(why) => grammar::read_whole(
                    old(self).words(),
                    old(self).state(proto::texts(scope@), false),
                ) == Err::<State, Seq<char>>(why@),
            },
            !grammar::begins(grammar::token(old(self).words(), old(self).at as int))
                ==> final(self).moved_from(old(self)),
        decreases old(self).tokens@.len() - old(self).at, 1nat,
    {
        let ghost open = proto::texts(scope@);
        proof {
            grammar::lemma_words();
            schema::law_a_statement_only_adds(self.words(), self.state(open, false));
            grammar::lemma_step(self.words(), self.state(open, false));
        }
        if self.done() {
            Err("the file ends inside a definition".to_string())
        } else if self.sees("syntax") || self.sees("edition") || self.sees("option") || self.sees(
            "reserved",
        ) || self.sees("extensions") {
            self.advance();
            self.skip_statement()
        } else if self.sees("package") {
            self.advance();
            let package = self.take()?;
            self.file.package = package;
            self.expect(";")
        } else if self.sees("import") {
            self.advance();
            let mut path = self.take()?;
            if text::same(path.as_str(), "public") || text::same(path.as_str(), "weak") {
                path = self.take()?;
            }
            let ghost before = self.file.imports@;
            self.file.imports.push(bare_path(path.as_str()));
            assert(proto::texts(self.file.imports@) =~= proto::texts(before).push(
                grammar::unquoted(path@),
            ));
            self.expect(";")
        } else if self.sees("message") {
            self.message(scope)
        } else if self.sees("enum") {
            self.advance();
            let name = self.take()?;
            let full = proto::full_name(
                self.file.package.as_str(),
                scope.as_slice(),
                name.as_str(),
            );
            let ghost before = self.file.enums@;
            self.file.enums.push(full);
            assert(proto::texts(self.file.enums@) =~= proto::texts(before).push(full@));
            self.expect("{")?;
            self.skip_block()
        } else if self.sees(";") {
            self.advance();
            Ok(())
        } else {
            let mut why: String = text::quoted(self.peek());
            why.append(" does not begin a statement");
            Err(why)
        }
    }

    /// The message at hand, with what is inside it.
    fn message(&mut self, scope: &Vec<String>) -> (out: Result<(), String>)
        requires
            old(self).wf(),
            old(self).at < old(self).tokens@.len(),
            old(self).words()[old(self).at as int] == "message"@,
        ensures
            final(self).wf(),
            final(self).tokens == old(self).tokens,
            match out {
                Ok(()) => {
                    &&& final(self).at > old(self).at
                    &&& final(self).file.package@ == old(self).file.package@
                    &&& grammar::read_whole(
                        old(self).words(),
                        old(self).state(proto::texts(scope@), false),
                    ) == Ok::<State, Seq<char>>(final(self).state(proto::texts(scope@), false))
                    &&& schema::message_read(
                        old(self).words(),
                        old(self).state(proto::texts(scope@), false),
                        final(self).state(proto::texts(scope@), false),
                    )
                },
                Err(why) => grammar::read_whole(
                    old(self).words(),
                    old(self).state(proto::texts(scope@), false),
                ) == Err::<State, Seq<char>>(why@),
            },
        decreases old(self).tokens@.len() - old(self).at, 0nat,
    {
        let ghost open = proto::texts(scope@);
        proof {
            grammar::lemma_words();
            assert(grammar::statement(self.words(), self.state(open, false))
                == grammar::read_message(self.words(), self.state(open, false)));
        }
        self.advance();
        let name = self.take()?;
        let full = proto::full_name(
            self.file.package.as_str(),
            scope.as_slice(),
            name.as_str(),
        );
        self.file.messages.declare(full.as_str());
        self.expect("{")?;
        let mut inner = scope.clone();
        inner.push(name);
        assert(proto::texts(inner@) =~= open.push(name@));
        assert(open.push(name@).drop_last() == open);
        loop
            invariant
                self.wf(),
                self.tokens == old(self).tokens,
                self.at > old(self).at,
                old(self).at < old(self).tokens@.len(),
                old(self).words()[old(self).at as int] == "message"@,
                self.file.package@ == old(self).file.package@,
                open == proto::texts(scope@),
                proto::texts(inner@) == open.push(name@),
                full@ == self.state(proto::texts(inner@), false).message(),
                grammar::read_whole(old(self).words(), old(self).state(open, false))
                    == grammar::closed_to(
                    self.words(),
                    self.state(proto::texts(inner@), false),
                    scope@.len(),
                ),
            decreases self.tokens@.len() - self.at,
        {
            proof {
                grammar::lemma_words();
                grammar::lemma_step(self.words(), self.state(proto::texts(inner@), false));
                grammar::lemma_finished(
                    self.words(),
                    self.state(proto::texts(inner@), false),
                    scope@.len(),
                );
            }
            if self.sees("}") {
                self.advance();
                proof {
                    assert(proto::texts(inner@).drop_last() == open);
                    schema::law_a_message_is_read_whole(
                        old(self).words(),
                        old(self).state(open, false),
                    );
                }
                return Ok(());
            } else if self.sees("message") || self.sees("enum") || self.sees("option")
                || self.sees("reserved") || self.sees("extensions") {
                self.statement(&inner)?;
            } else if self.sees("oneof") {
                self.oneof(full.as_str(), &inner)?;
            } else if self.peek().is_empty() {
                let mut why: String = "message ".to_string();
                why.append(full.as_str());
                why.append(" never closes");
                return Err(why);
            } else {
                self.field(full.as_str(), &inner, true)?;
            }
        }
    }
}

/// Whether one of `pending` from `from` on is the field `number` of `message`.
fn deferred_again(pending: &Vec<Deferred>, from: usize, message: &str, number: u32) -> (answer:
    bool)
    requires
        from <= pending@.len(),
    ensures
        answer == grammar::occurs(
            pending@.map_values(|deferred: Deferred| deferred@).skip(from as int),
            message@,
            number,
        ),
{
    let ghost rest = pending@.map_values(|deferred: Deferred| deferred@).skip(from as int);
    let mut at: usize = from;
    while at < pending.len()
        invariant
            from <= at <= pending@.len(),
            rest == pending@.map_values(|deferred: Deferred| deferred@).skip(from as int),
            forall|i: int|
                0 <= i < at - from ==> !grammar::is_of(#[trigger] rest[i], message@, number),
        decreases pending@.len() - at,
    {
        assert(rest[at - from] == pending@[at as int]@);
        if pending[at].number == number && text::same(pending[at].message.as_str(), message) {
            assert(grammar::is_of(rest[at - from], message@, number));
            return true;
        }
        at = at + 1;
    }
    false
}

/// The file that `tokens` are.
///
/// # Errors
/// A statement the language does not have, a field without a number, a brace
/// that does not close.
pub fn read_tokens(tokens: Vec<String>) -> (out: Result<File, String>)
    ensures
        match out {
            Ok(file) => grammar::file_of_tokens(proto::texts(tokens@)) == Ok::<
                proto::FileModel,
                Seq<char>,
            >(file@),
            Err(why) => grammar::file_of_tokens(proto::texts(tokens@)) == Err::<
                proto::FileModel,
                Seq<char>,
            >(why@),
        },
{
    let ghost words = proto::texts(tokens@);
    let scope: Vec<String> = Vec::new();
    let mut parser = Parser { tokens, at: 0, file: File::new(), pending: Vec::new() };
    proof {
        assert(proto::texts(scope@) =~= Seq::<Seq<char>>::empty());
        assert(parser.state(Seq::empty(), false) =~= State::start());
    }
    while !parser.done()
        invariant
            parser.wf(),
            words == parser.words(),
            words == proto::texts(tokens@),
            scope@.len() == 0,
            proto::texts(scope@) == Seq::<Seq<char>>::empty(),
            grammar::run(words, State::start()) == grammar::run(
                words,
                parser.state(Seq::empty(), false),
            ),
        decreases parser.tokens@.len() - parser.at,
    {
        proof {
            schema::law_a_file_is_its_statements(words, parser.state(Seq::empty(), false));
        }
        parser.statement(&scope)?;
    }
    let mut file = parser.file;
    let pending = parser.pending;
    let ghost start = file@;
    let ghost all = pending@.map_values(|deferred: Deferred| deferred@);
    let mut at: usize = 0;
    assert(all.skip(0) == all);
    while at < pending.len()
        invariant
            at <= pending.len(),
            all == pending@.map_values(|deferred: Deferred| deferred@),
            grammar::settle_all(start, all) == grammar::settle_all(file@, all.skip(at as int)),
        decreases pending.len() - at,
    {
        let deferred = &pending[at];
        proof {
            assert(all.skip(at as int).drop_first() == all.skip(at + 1));
            assert(all.skip(at as int)[0] == deferred@);
        }
        if !deferred_again(&pending, at + 1, deferred.message.as_str(), deferred.number) {
            let kind = file.resolve(deferred.scope.as_slice(), deferred.written.as_str());
            file.messages.settle(deferred.message.as_str(), deferred.number, kind);
        }
        at = at + 1;
    }
    Ok(file)
}

impl File {
    /// Read `source`.
    ///
    /// # Errors
    /// Not a proto file: a statement the language does not have, a field
    /// without a number, a brace that does not close.
    pub fn parse(source: &str) -> (out: Result<Self, String>)
        ensures
            match out {
                Ok(file) => grammar::file_of(source@) == Ok::<proto::FileModel, Seq<char>>(file@),
                Err(why) => grammar::file_of(source@) == Err::<proto::FileModel, Seq<char>>(why@),
            },
    {
        let tokens = lexer::tokenize(source)?;
        read_tokens(tokens)
    }
}

} // verus!
