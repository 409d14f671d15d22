//! What holds of the file that a text is read into.
use crate::grammar;
use crate::grammar::{Pending, State};
use crate::proto;
use crate::proto::{FileModel, KindModel, MessagesModel};
use vstd::prelude::*;

verus! {

/// Whether a kind is that of a scalar type.
pub open spec fn scalar(kind: KindModel) -> bool {
    match kind {
        KindModel::Varint | KindModel::Fixed64 | KindModel::Fixed32 | KindModel::Text
        | KindModel::Bytes => true,
        _ => false,
    }
}

/// Whether a kind that is no map stands for something: a message has to be one
/// of the file.
pub open spec fn defined(messages: MessagesModel, kind: KindModel) -> bool {
    match kind {
        KindModel::Message(name) => messages.contains_key(name),
        KindModel::MapOf(_, _) => false,
        _ => true,
    }
}

/// Whether the kind of a field stands for something: a map goes from a scalar to
/// something that is no map.
pub open spec fn field_defined(messages: MessagesModel, kind: KindModel) -> bool {
    match kind {
        KindModel::MapOf(key, value) => scalar(*key) && defined(messages, *value),
        _ => defined(messages, kind),
    }
}

/// Whether every field of every message has a kind that stands for something.
pub open spec fn all_defined(messages: MessagesModel) -> bool {
    forall|name: Seq<char>, number: u32|
        messages.contains_key(name) && (#[trigger] messages[name]).contains_key(number)
            ==> field_defined(messages, #[trigger] messages[name][number].kind)
}

/// Whether no kind names a message yet.
spec fn unnamed(messages: MessagesModel) -> bool {
    forall|name: Seq<char>, number: u32|
        messages.contains_key(name) && (#[trigger] messages[name]).contains_key(number)
            ==> field_defined(MessagesModel::empty(), #[trigger] messages[name][number].kind)
}

proof fn lemma_field_unnamed(tokens: Seq<Seq<char>>, at: int, message: Seq<char>, labels: bool)
    ensures
        grammar::field(tokens, at, message, labels) matches Ok(read) ==> field_defined(
            MessagesModel::empty(),
            read.field.kind,
        ),
{
}

proof fn lemma_step_unnamed(tokens: Seq<Seq<char>>, state: State)
    requires
        unnamed(state.file.messages),
    ensures
        grammar::step(tokens, state) matches Ok(next) ==> unnamed(next.file.messages),
{
    lemma_field_unnamed(tokens, state.at, state.message(), true);
    lemma_field_unnamed(tokens, state.at, state.message(), false);
}

proof fn lemma_run_unnamed(tokens: Seq<Seq<char>>, state: State)
    requires
        0 <= state.at,
        unnamed(state.file.messages),
    ensures
        grammar::run(tokens, state) matches Ok(end) ==> unnamed(end.file.messages),
    decreases tokens.len() - state.at,
{
    if !(state.open.len() == 0 && state.at >= tokens.len()) {
        grammar::lemma_step(tokens, state);
        lemma_step_unnamed(tokens, state);
        if let Ok(next) = grammar::step(tokens, state) {
            lemma_run_unnamed(tokens, next);
        }
    }
}

proof fn lemma_nearest(file: FileModel, scope: Seq<Seq<char>>, name: Seq<char>, depth: int)
    ensures
        defined(file.messages, proto::nearest(file, scope, name, depth)),
    decreases depth + 1,
{
    if depth >= 0 {
        lemma_nearest(file, scope, name, depth - 1);
    }
}

/// What a type stands for is something: a scalar, a message of the file, an enum,
/// or a type that is not looked into.
pub proof fn law_types_stand_for_something(
    file: FileModel,
    scope: Seq<Seq<char>>,
    written: Seq<char>,
)
    ensures
        defined(file.messages, proto::resolved(file, scope, written)),
{
    lemma_nearest(
        file,
        scope,
        proto::without_leading_dots(written),
        scope.len() as int,
    );
}

proof fn lemma_settle_all(file: FileModel, pending: Seq<Pending>)
    requires
        all_defined(file.messages),
    ensures
        grammar::settle_all(file, pending).messages.dom() == file.messages.dom(),
        all_defined(grammar::settle_all(file, pending).messages),
    decreases pending.len(),
{
    if pending.len() > 0 {
        let first = pending[0];
        let rest = pending.drop_first();
        if grammar::occurs(rest, first.message, first.number) {
            lemma_settle_all(file, rest);
        } else {
            let next = grammar::settle(file, first);
            law_types_stand_for_something(file, first.scope, first.written);
            assert(next.messages.dom() =~= file.messages.dom());
            lemma_settle_all(next, rest);
        }
    }
}

/// In a file that was read, every message that a field is of is one of the file,
/// and every map goes from a scalar to something that is no map. So no type is
/// left to be found: what the file does not define is not looked into.
pub proof fn law_read_types_are_defined(source: Seq<char>)
    ensures
        grammar::file_of(source) matches Ok(file) ==> all_defined(file.messages),
{
    if let Ok(tokens) = crate::lexer::tokens_of(source) {
        lemma_run_unnamed(tokens, State::start());
        if let Ok(end) = grammar::run(tokens, State::start()) {
            lemma_settle_all(end.file, end.pending);
        }
    }
}

/// What a type stands for depends on the names that the file defines, not on what
/// stands behind them.
pub proof fn law_names_decide_types(
    file: FileModel,
    other: FileModel,
    scope: Seq<Seq<char>>,
    written: Seq<char>,
)
    requires
        file.package == other.package,
        file.enums == other.enums,
        file.messages.dom() == other.messages.dom(),
    ensures
        proto::resolved(file, scope, written) == proto::resolved(other, scope, written),
{
    lemma_names_decide_nearest(
        file,
        other,
        scope,
        proto::without_leading_dots(written),
        scope.len() as int,
    );
}

proof fn lemma_names_decide_nearest(
    file: FileModel,
    other: FileModel,
    scope: Seq<Seq<char>>,
    name: Seq<char>,
    depth: int,
)
    requires
        file.package == other.package,
        file.enums == other.enums,
        file.messages.dom() == other.messages.dom(),
    ensures
        proto::nearest(file, scope, name, depth) == proto::nearest(other, scope, name, depth),
    decreases depth + 1,
{
    assert forall|key: Seq<char>| file.messages.contains_key(key) == other.messages.contains_key(
        key,
    ) by {
        assert(file.messages.dom().contains(key) == other.messages.dom().contains(key));
    }
    if depth >= 0 {
        lemma_names_decide_nearest(file, other, scope, name, depth - 1);
    }
}

/// The nearest scope wins: a name that a scope defines, and none further in does,
/// stands for what it is there.
pub proof fn law_nearest_scope_wins(
    file: FileModel,
    scope: Seq<Seq<char>>,
    written: Seq<char>,
    depth: int,
)
    requires
        proto::scalar_kind(written) is None,
        0 <= depth <= scope.len(),
        proto::named(
            file,
            proto::full_name_of(
                file.package,
                scope.take(depth),
                proto::without_leading_dots(written),
            ),
        ) is Some,
        forall|deeper: int|
            depth < deeper <= scope.len() ==> proto::named(
                file,
                proto::full_name_of(
                    file.package,
                    #[trigger] scope.take(deeper),
                    proto::without_leading_dots(written),
                ),
            ) is None,
    ensures
        Some(proto::resolved(file, scope, written)) == proto::named(
            file,
            proto::full_name_of(
                file.package,
                scope.take(depth),
                proto::without_leading_dots(written),
            ),
        ),
{
    lemma_nearest_scope_wins(
        file,
        scope,
        proto::without_leading_dots(written),
        depth,
        scope.len() as int,
    );
}

proof fn lemma_nearest_scope_wins(
    file: FileModel,
    scope: Seq<Seq<char>>,
    name: Seq<char>,
    depth: int,
    from: int,
)
    requires
        0 <= depth <= from <= scope.len(),
        proto::named(file, proto::full_name_of(file.package, scope.take(depth), name)) is Some,
        forall|deeper: int|
            depth < deeper <= from ==> proto::named(
                file,
                proto::full_name_of(file.package, #[trigger] scope.take(deeper), name),
            ) is None,
    ensures
        Some(proto::nearest(file, scope, name, from)) == proto::named(
            file,
            proto::full_name_of(file.package, scope.take(depth), name),
        ),
    decreases from,
{
    if depth < from {
        assert(proto::named(
            file,
            proto::full_name_of(file.package, scope.take(from), name),
        ) is None);
        lemma_nearest_scope_wins(file, scope, name, depth, from - 1);
    }
}

/// A type that no scope defines, nor the file as a full name, is one that is not
/// looked into: that of a name that an import brings.
pub proof fn law_undefined_types_are_opaque(
    file: FileModel,
    scope: Seq<Seq<char>>,
    written: Seq<char>,
)
    requires
        proto::scalar_kind(written) is None,
        proto::named(file, proto::without_leading_dots(written)) is None,
        forall|depth: int|
            0 <= depth <= scope.len() ==> proto::named(
                file,
                proto::full_name_of(
                    file.package,
                    #[trigger] scope.take(depth),
                    proto::without_leading_dots(written),
                ),
            ) is None,
    ensures
        proto::resolved(file, scope, written) == KindModel::Opaque,
{
    lemma_undefined_is_opaque(
        file,
        scope,
        proto::without_leading_dots(written),
        scope.len() as int,
    );
}

proof fn lemma_undefined_is_opaque(
    file: FileModel,
    scope: Seq<Seq<char>>,
    name: Seq<char>,
    from: int,
)
    requires
        from <= scope.len(),
        proto::named(file, name) is None,
        forall|depth: int|
            0 <= depth <= scope.len() ==> proto::named(
                file,
                proto::full_name_of(file.package, #[trigger] scope.take(depth), name),
            ) is None,
    ensures
        proto::nearest(file, scope, name, from) == KindModel::Opaque,
    decreases from + 1,
{
    if from >= 0 {
        assert(proto::named(
            file,
            proto::full_name_of(file.package, scope.take(from), name),
        ) is None);
        lemma_undefined_is_opaque(file, scope, name, from - 1);
    }
}

/// Looking types up changes the kinds of fields and nothing else.
proof fn lemma_settle_all_keeps(file: FileModel, pending: Seq<Pending>)
    ensures
        grammar::settle_all(file, pending).package == file.package,
        grammar::settle_all(file, pending).enums == file.enums,
        grammar::settle_all(file, pending).imports == file.imports,
        grammar::settle_all(file, pending).messages.dom() == file.messages.dom(),
    decreases pending.len(),
{
    if pending.len() > 0 {
        let next = grammar::settle(file, pending[0]);
        assert(next.messages.dom() =~= file.messages.dom());
        lemma_settle_all_keeps(file, pending.drop_first());
        lemma_settle_all_keeps(next, pending.drop_first());
    }
}

/// Whether there is that field.
pub open spec fn has_field(messages: MessagesModel, message: Seq<char>, number: u32) -> bool {
    messages.contains_key(message) && messages[message].contains_key(number)
}

/// A field that no type is looked up for stays as it is.
proof fn lemma_settle_all_others(
    file: FileModel,
    pending: Seq<Pending>,
    message: Seq<char>,
    number: u32,
)
    requires
        has_field(file.messages, message, number),
        forall|j: int| 0 <= j < pending.len() ==> !grammar::is_of(#[trigger] pending[j], message, number),
    ensures
        has_field(grammar::settle_all(file, pending).messages, message, number),
        grammar::settle_all(file, pending).messages[message][number]
            == file.messages[message][number],
    decreases pending.len(),
{
    if pending.len() > 0 {
        let rest = pending.drop_first();
        assert forall|j: int| 0 <= j < rest.len() implies !grammar::is_of(
            #[trigger] rest[j],
            message,
            number,
        ) by {
            assert(rest[j] == pending[j + 1]);
        }
        assert(!grammar::is_of(pending[0], message, number));
        lemma_settle_all_others(file, rest, message, number);
        lemma_settle_all_others(grammar::settle(file, pending[0]), rest, message, number);
    }
}

/// A type that is a name is looked up in the whole file, wherever in the file its
/// field stands and in whatever order the types are looked up: its kind is what its
/// type stands for in the file as it is read, where its number is not given to
/// another such field of the message after it.
pub proof fn law_types_are_looked_up_in_the_whole_file(
    file: FileModel,
    pending: Seq<Pending>,
    i: int,
)
    requires
        0 <= i < pending.len(),
        has_field(file.messages, pending[i].message, pending[i].number),
        forall|j: int|
            i < j < pending.len() ==> !grammar::is_of(
                #[trigger] pending[j],
                pending[i].message,
                pending[i].number,
            ),
    ensures
        ({
            let whole = grammar::settle_all(file, pending);
            let (message, number) = (pending[i].message, pending[i].number);
            &&& has_field(whole.messages, message, number)
            &&& whole.messages[message][number] == proto::of_kind(
                file.messages[message][number],
                proto::resolved(whole, pending[i].scope, pending[i].written),
            )
        }),
    decreases pending.len(),
{
    let first = pending[0];
    let rest = pending.drop_first();
    let (message, number) = (pending[i].message, pending[i].number);
    let next = grammar::settle(file, first);
    assert forall|j: int| 0 <= j < rest.len() implies #[trigger] rest[j] == pending[j + 1] by {}
    if i == 0 {
        assert forall|j: int| 0 <= j < rest.len() implies !grammar::is_of(
            #[trigger] rest[j],
            message,
            number,
        ) by {
            assert(!grammar::is_of(pending[j + 1], message, number));
        }
        assert(!grammar::occurs(rest, message, number));
        lemma_settle_all_others(next, rest, message, number);
        lemma_settle_all_keeps(file, pending);
        law_names_decide_types(
            grammar::settle_all(file, pending),
            file,
            pending[i].scope,
            pending[i].written,
        );
    } else {
        assert(rest[i - 1] == pending[i]);
        assert forall|j: int| i - 1 < j < rest.len() implies !grammar::is_of(
            #[trigger] rest[j],
            message,
            number,
        ) by {
            assert(!grammar::is_of(pending[j + 1], message, number));
        }
        if grammar::occurs(rest, first.message, first.number) {
            law_types_are_looked_up_in_the_whole_file(file, rest, i - 1);
        } else {
            assert(!grammar::is_of(rest[i - 1], first.message, first.number));
            law_types_are_looked_up_in_the_whole_file(next, rest, i - 1);
        }
    }
}

/// A field that is written with a scalar type keeps the kind of it, whatever field
/// had its number before.
pub proof fn law_a_scalar_stays_one(
    file: FileModel,
    pending: Seq<Pending>,
    message: Seq<char>,
    number: u32,
)
    requires
        has_field(file.messages, message, number),
        scalar(file.messages[message][number].kind),
    ensures
        has_field(grammar::settle_all(file, pending).messages, message, number),
        grammar::settle_all(file, pending).messages[message][number]
            == file.messages[message][number],
    decreases pending.len(),
{
    if pending.len() > 0 {
        let rest = pending.drop_first();
        law_a_scalar_stays_one(file, rest, message, number);
        law_a_scalar_stays_one(grammar::settle(file, pending[0]), rest, message, number);
    }
}

/// Whether every field whose type is a name is there.
spec fn all_there(messages: MessagesModel, pending: Seq<Pending>) -> bool {
    forall|i: int|
        0 <= i < pending.len() ==> has_field(
            messages,
            (#[trigger] pending[i]).message,
            pending[i].number,
        )
}

proof fn lemma_run_all_there(tokens: Seq<Seq<char>>, state: State)
    requires
        0 <= state.at,
        all_there(state.file.messages, state.pending),
    ensures
        grammar::run(tokens, state) matches Ok(end) ==> all_there(end.file.messages, end.pending),
    decreases tokens.len() - state.at,
{
    if !(state.open.len() == 0 && state.at >= tokens.len()) {
        grammar::lemma_step(tokens, state);
        if let Ok(next) = grammar::step(tokens, state) {
            assert(all_there(next.file.messages, next.pending));
            lemma_run_all_there(tokens, next);
        }
    }
}

/// Every field whose type is a name is a field of the file when the types are
/// looked up.
pub proof fn law_no_type_is_looked_up_in_vain(tokens: Seq<Seq<char>>)
    ensures
        grammar::run(tokens, State::start()) matches Ok(end) ==> forall|i: int|
            0 <= i < end.pending.len() ==> has_field(
                end.file.messages,
                (#[trigger] end.pending[i]).message,
                end.pending[i].number,
            ),
{
    lemma_run_all_there(tokens, State::start());
}

/// Whether a file says all that another says: every message and each of its
/// field numbers, and every import and enum in its place.
pub open spec fn says_all_of(file: FileModel, other: FileModel) -> bool {
    &&& other.imports.is_prefix_of(file.imports)
    &&& other.enums.is_prefix_of(file.enums)
    &&& forall|name: Seq<char>| #[trigger]
        other.messages.contains_key(name) ==> file.messages.contains_key(name)
    &&& forall|name: Seq<char>, number: u32|
        #![trigger has_field(other.messages, name, number)]
        #![trigger has_field(file.messages, name, number)]
        has_field(other.messages, name, number) ==> has_field(file.messages, name, number)
}

proof fn lemma_step_adds(tokens: Seq<Seq<char>>, state: State)
    ensures
        grammar::step(tokens, state) matches Ok(next) ==> says_all_of(next.file, state.file),
{
}

/// Reading on adds to what a file says and takes nothing away: imports and enums
/// stay in the order in which they stand in the text, and a message stays one.
pub proof fn law_reading_only_adds(tokens: Seq<Seq<char>>, state: State)
    requires
        0 <= state.at,
    ensures
        grammar::run(tokens, state) matches Ok(end) ==> says_all_of(end.file, state.file),
    decreases tokens.len() - state.at,
{
    if !(state.open.len() == 0 && state.at >= tokens.len()) {
        grammar::lemma_step(tokens, state);
        lemma_step_adds(tokens, state);
        if let Ok(next) = grammar::step(tokens, state) {
            law_reading_only_adds(tokens, next);
        }
    }
}

/// Reading a file is reading its statements, one after the other: what is left
/// to be read after a statement, with all that is inside it, is read from there.
pub proof fn law_a_file_is_its_statements(tokens: Seq<Seq<char>>, state: State)
    requires
        0 <= state.at < tokens.len(),
        state.open.len() == 0,
        !state.oneof,
    ensures
        grammar::run(tokens, state) == (match grammar::read_whole(tokens, state) {
            Err(why) => Err(why),
            Ok(next) => grammar::run(tokens, next),
        }),
{
    grammar::lemma_step(tokens, state);
    if let Ok(next) = grammar::step(tokens, state) {
        grammar::lemma_step_oneof(tokens, state);
        lemma_run_closed(tokens, next, 0);
    }
}

proof fn lemma_run_closed(tokens: Seq<Seq<char>>, state: State, depth: nat)
    requires
        0 <= state.at,
        state.oneof ==> state.open.len() > 0,
    ensures
        grammar::run(tokens, state) == (match grammar::closed_to(tokens, state, depth) {
            Err(why) => Err(why),
            Ok(next) => grammar::run(tokens, next),
        }),
    decreases tokens.len() - state.at,
{
    if !(state.open.len() <= depth && !state.oneof) {
        grammar::lemma_step(tokens, state);
        grammar::lemma_step_oneof(tokens, state);
        if let Ok(next) = grammar::step(tokens, state) {
            lemma_run_closed(tokens, next, depth);
        }
    }
}

/// Whether a full name is `full` or one inside it.
pub open spec fn below(full: Seq<char>, name: Seq<char>) -> bool {
    name == full || full.push('.').is_prefix_of(name)
}

/// Whether `after` says all that `before` says, and what it says besides is of the
/// message `full` or of messages and enums inside it.
pub open spec fn adds_below(full: Seq<char>, before: State, after: State) -> bool {
    &&& after.file.package == before.file.package
    &&& after.file.imports == before.file.imports
    &&& says_all_of(after.file, before.file)
    &&& before.pending.is_prefix_of(after.pending)
    &&& forall|name: Seq<char>| #[trigger]
        after.file.messages.contains_key(name) && !before.file.messages.contains_key(name)
            ==> below(full, name)
    &&& forall|name: Seq<char>|
        before.file.messages.contains_key(name) && !below(full, name)
            ==> #[trigger] after.file.messages[name] == before.file.messages[name]
    &&& forall|i: int|
        before.file.enums.len() <= i < after.file.enums.len() ==> below(
            full,
            #[trigger] after.file.enums[i],
        )
    &&& forall|i: int|
        before.pending.len() <= i < after.pending.len() ==> below(
            full,
            (#[trigger] after.pending[i]).message,
        )
}

proof fn lemma_adds_below_joins(full: Seq<char>, a: State, b: State, c: State)
    requires
        adds_below(full, a, b),
        adds_below(full, b, c),
    ensures
        adds_below(full, a, c),
{
    assert forall|name: Seq<char>|
        a.file.messages.contains_key(name) && !below(
            full,
            name,
        ) implies #[trigger] c.file.messages[name] == a.file.messages[name] by {
        assert(b.file.messages.contains_key(name));
        assert(b.file.messages[name] == a.file.messages[name]);
    }
    assert forall|name: Seq<char>, number: u32|
        has_field(a.file.messages, name, number) implies #[trigger] has_field(
        c.file.messages,
        name,
        number,
    ) by {
        assert(has_field(b.file.messages, name, number));
    }
    assert forall|i: int| a.file.enums.len() <= i < c.file.enums.len() implies below(
        full,
        #[trigger] c.file.enums[i],
    ) by {
        if i < b.file.enums.len() {
            assert(c.file.enums[i] == b.file.enums[i]);
        }
    }
    assert forall|i: int| a.pending.len() <= i < c.pending.len() implies below(
        full,
        (#[trigger] c.pending[i]).message,
    ) by {
        if i < b.pending.len() {
            assert(c.pending[i] == b.pending[i]);
        }
    }
}

/// Names inside the messages `base` are inside the innermost of them.
proof fn lemma_names_below(package: Seq<char>, base: Seq<Seq<char>>, open: Seq<Seq<char>>)
    requires
        0 < base.len() <= open.len(),
        open.take(base.len() as int) == base,
    ensures
        below(
            proto::full_name_of(package, base.drop_last(), base.last()),
            proto::full_name_of(package, open.drop_last(), open.last()),
        ),
        forall|name: Seq<char>|
            below(
                proto::full_name_of(package, base.drop_last(), base.last()),
                #[trigger] proto::full_name_of(package, open, name),
            ),
    decreases open.len(),
{
    let full = proto::full_name_of(package, base.drop_last(), base.last());
    let message = proto::full_name_of(package, open.drop_last(), open.last());
    if base.len() < open.len() {
        assert(open.drop_last().take(base.len() as int) =~= base);
        lemma_names_below(package, base, open.drop_last());
    } else {
        assert(open =~= base);
    }
    assert forall|name: Seq<char>| below(
        full,
        #[trigger] proto::full_name_of(package, open, name),
    ) by {
        assert(proto::full_name_of(package, open, name) == proto::dotted(message, name));
        assert(message.push('.').is_prefix_of(proto::dotted(message, name)));
    }
}

/// A step inside a message adds below it, and the step that leaves it is over its
/// closing brace.
proof fn lemma_step_below(tokens: Seq<Seq<char>>, state: State, base: Seq<Seq<char>>)
    requires
        0 <= state.at,
        0 < base.len() <= state.open.len(),
        state.open.take(base.len() as int) == base,
    ensures
        grammar::step(tokens, state) matches Ok(next) ==> {
            &&& adds_below(
                proto::full_name_of(state.file.package, base.drop_last(), base.last()),
                state,
                next,
            )
            &&& if next.open.len() >= base.len() {
                next.open.take(base.len() as int) == base
            } else {
                &&& next.open == base.drop_last()
                &&& !next.oneof
                &&& tokens[next.at - 1] == "}"@
            }
        },
{
    grammar::lemma_words();
    grammar::lemma_step(tokens, state);
    lemma_names_below(state.file.package, base, state.open);
    lemma_step_adds(tokens, state);
    let full = proto::full_name_of(state.file.package, base.drop_last(), base.last());
    if let Ok(next) = grammar::step(tokens, state) {
        if next.open.len() > state.open.len() {
            assert(next.open.take(base.len() as int) =~= base);
        } else if next.open.len() < state.open.len() {
            if next.open.len() >= base.len() {
                assert(next.open.take(base.len() as int) =~= base);
            } else {
                assert(next.open =~= base.drop_last());
            }
        }
        assert(adds_below(full, state, next));
    }
}

proof fn lemma_closed_below(tokens: Seq<Seq<char>>, state: State, base: Seq<Seq<char>>)
    requires
        0 <= state.at,
        0 < base.len() <= state.open.len(),
        state.open.take(base.len() as int) == base,
    ensures
        grammar::closed_to(tokens, state, (base.len() - 1) as nat) matches Ok(end) ==> {
            &&& adds_below(
                proto::full_name_of(state.file.package, base.drop_last(), base.last()),
                state,
                end,
            )
            &&& state.at < end.at <= tokens.len()
            &&& end.open == base.drop_last()
            &&& !end.oneof
            &&& tokens[end.at - 1] == "}"@
        },
    decreases tokens.len() - state.at,
{
    grammar::lemma_step(tokens, state);
    lemma_step_below(tokens, state, base);
    let depth = (base.len() - 1) as nat;
    if let Ok(next) = grammar::step(tokens, state) {
        if next.open.len() >= base.len() {
            lemma_closed_below(tokens, next, base);
            if let Ok(end) = grammar::closed_to(tokens, next, depth) {
                lemma_adds_below_joins(
                    proto::full_name_of(state.file.package, base.drop_last(), base.last()),
                    state,
                    next,
                    end,
                );
            }
        } else {
            assert(grammar::closed_to(tokens, next, depth) == Ok::<State, Seq<char>>(next));
        }
    }
}

/// Whether from `before` to `after` the message that begins at hand is read: it is
/// one of the file, what is added is of it or inside it, and the last token read is
/// its closing brace.
pub open spec fn message_read(tokens: Seq<Seq<char>>, before: State, after: State) -> bool {
    let full = proto::full_name_of(before.file.package, before.open, tokens[before.at + 1]);
    &&& after.file.messages.contains_key(full)
    &&& adds_below(full, before, after)
    &&& before.at < after.at <= tokens.len()
    &&& tokens[after.at - 1] == "}"@
}

/// A message that is read is one of the file. It is read up to its own closing
/// brace, and what it adds is of itself or of messages and enums inside it: any
/// other message stays as it is, and so do the package and the imports.
pub proof fn law_a_message_is_read_whole(tokens: Seq<Seq<char>>, state: State)
    requires
        0 <= state.at,
        !state.oneof,
        grammar::token(tokens, state.at) == "message"@,
    ensures
        grammar::read_whole(tokens, state) matches Ok(end) ==> {
            &&& message_read(tokens, state, end)
            &&& end.open == state.open
            &&& !end.oneof
        },
{
    grammar::lemma_words();
    grammar::lemma_step(tokens, state);
    if let Ok(next) = grammar::statement(tokens, state) {
        let full = proto::full_name_of(state.file.package, state.open, tokens[state.at + 1]);
        assert(next.open.drop_last() =~= state.open);
        assert(next.open.take(next.open.len() as int) =~= next.open);
        lemma_closed_below(tokens, next, next.open);
        assert(next.file.messages == proto::declared(state.file.messages, full));
        assert(says_all_of(next.file, state.file)) by {
            assert forall|name: Seq<char>, number: u32|
                has_field(state.file.messages, name, number) implies #[trigger] has_field(
                next.file.messages,
                name,
                number,
            ) by {}
        }
        assert(adds_below(full, state, next));
        if let Ok(end) = grammar::closed_to(tokens, next, state.open.len()) {
            lemma_adds_below_joins(full, state, next, end);
        }
    }
}

/// Whether `after` says all that `before` says, and its types that are still to be
/// looked up are among those of `after`, in their places.
pub open spec fn adds(before: State, after: State) -> bool {
    &&& says_all_of(after.file, before.file)
    &&& before.pending.is_prefix_of(after.pending)
}

/// Reading a statement takes its own tokens and at least one, leaves open what was
/// open, and adds to what the file says: no message and no field number is lost,
/// and imports, enums and the fields whose types are still to be looked up stay in
/// their places.
pub proof fn law_a_statement_only_adds(tokens: Seq<Seq<char>>, state: State)
    requires
        0 <= state.at,
        !state.oneof,
    ensures
        grammar::read_whole(tokens, state) matches Ok(end) ==> {
            &&& state.at < end.at <= tokens.len()
            &&& end.open == state.open
            &&& !end.oneof
            &&& adds(state, end)
        },
{
    grammar::lemma_words();
    grammar::lemma_step(tokens, state);
    if grammar::token(tokens, state.at) == "message"@ {
        law_a_message_is_read_whole(tokens, state);
    }
}

} // verus!
