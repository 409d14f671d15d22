//! What names stand for: scalar types, full names, and the types of fields once they
//! are looked up.
use crate::grammar;
use crate::grammar::Pending;
use crate::laws::schema;
use crate::laws::schema::has_field;
use crate::proto;
use crate::proto::{Field, FieldModel, File, FileModel, Kind, KindModel, Message};
use vstd::prelude::*;

verus! {

/// Whether a name is one of the seven scalar types that travel as varints.
pub open spec fn varint_name(name: Seq<char>) -> bool {
    name == "int32"@ || name == "int64"@ || name == "uint32"@ || name == "uint64"@ || name
        == "sint32"@ || name == "sint64"@ || name == "bool"@
}

/// Whether a name is one of the three scalar types of eight bytes.
pub open spec fn fixed64_name(name: Seq<char>) -> bool {
    name == "fixed64"@ || name == "sfixed64"@ || name == "double"@
}

/// Whether a name is one of the three scalar types of four bytes.
pub open spec fn fixed32_name(name: Seq<char>) -> bool {
    name == "fixed32"@ || name == "sfixed32"@ || name == "float"@
}

/// Whether a name is that of a scalar type.
pub open spec fn scalar_name(name: Seq<char>) -> bool {
    varint_name(name) || fixed64_name(name) || fixed32_name(name) || name == "string"@ || name
        == "bytes"@
}

proof fn lemma_scalar_names()
    ensures
        forall|name: Seq<char>| #[trigger]
            scalar_name(name) ==> name.len() > 0 && name[0] != '.',
        forall|name: Seq<char>| varint_name(name) ==> !#[trigger] fixed64_name(name),
        forall|name: Seq<char>| varint_name(name) ==> !#[trigger] fixed32_name(name),
        forall|name: Seq<char>| fixed64_name(name) ==> !#[trigger] fixed32_name(name),
        !varint_name("string"@) && !fixed64_name("string"@) && !fixed32_name("string"@),
        !varint_name("bytes"@) && !fixed64_name("bytes"@) && !fixed32_name("bytes"@),
        "string"@ != "bytes"@,
{
    reveal_strlit("int32");
    reveal_strlit("int64");
    reveal_strlit("uint32");
    reveal_strlit("uint64");
    reveal_strlit("sint32");
    reveal_strlit("sint64");
    reveal_strlit("bool");
    reveal_strlit("fixed64");
    reveal_strlit("sfixed64");
    reveal_strlit("double");
    reveal_strlit("fixed32");
    reveal_strlit("sfixed32");
    reveal_strlit("float");
    reveal_strlit("string");
    reveal_strlit("bytes");
    assert("int32"@.len() == 5 && "int64"@.len() == 5 && "uint32"@.len() == 6 && "uint64"@.len()
        == 6 && "sint32"@.len() == 6 && "sint64"@.len() == 6 && "bool"@.len() == 4);
    assert("fixed64"@.len() == 7 && "sfixed64"@.len() == 8 && "double"@.len() == 6);
    assert("fixed32"@.len() == 7 && "sfixed32"@.len() == 8 && "float"@.len() == 5);
    assert("string"@.len() == 6 && "bytes"@.len() == 5);
    assert("int32"@[0] == 'i' && "int64"@[0] == 'i' && "float"@[0] == 'f' && "bytes"@[0] == 'b');
    assert("uint32"@[0] == 'u' && "uint64"@[0] == 'u' && "double"@[0] == 'd');
    assert("sint32"@[1] == 'i' && "sint64"@[1] == 'i' && "string"@[1] == 't');
    assert("sint32"@[0] == 's' && "sint64"@[0] == 's' && "string"@[0] == 's');
    assert("fixed64"@[5] == '6' && "fixed32"@[5] == '3' && "fixed64"@[0] == 'f' && "fixed32"@[0]
        == 'f');
    assert("sfixed64"@[6] == '6' && "sfixed32"@[6] == '3' && "sfixed64"@[0] == 's'
        && "sfixed32"@[0] == 's');
    assert("bool"@[0] == 'b');
}

/// The scalar types of the language, and no others: which travel as varints, which as
/// eight bytes, which as four, and the text and the bytes.
pub proof fn law_the_scalar_types(name: Seq<char>)
    ensures
        varint_name(name) ==> proto::scalar_kind(name) == Some(KindModel::Varint),
        fixed64_name(name) ==> proto::scalar_kind(name) == Some(KindModel::Fixed64),
        fixed32_name(name) ==> proto::scalar_kind(name) == Some(KindModel::Fixed32),
        proto::scalar_kind("string"@) == Some(KindModel::Text),
        proto::scalar_kind("bytes"@) == Some(KindModel::Bytes),
        !scalar_name(name) ==> proto::scalar_kind(name) is None,
{
    lemma_scalar_names();
    assert(varint_name(name) ==> !fixed64_name(name));
    assert(varint_name(name) ==> !fixed32_name(name));
    assert(fixed64_name(name) ==> !fixed32_name(name));
}

/// A scalar type stands for itself, whatever the file defines.
pub proof fn law_a_scalar_name_is_never_another(
    file: FileModel,
    scope: Seq<Seq<char>>,
    written: Seq<char>,
)
    requires
        scalar_name(written),
    ensures
        Some(proto::resolved(file, scope, written)) == proto::scalar_kind(written),
{
    law_the_scalar_types(written);
}

/// A full name is the package, the messages around and the name itself, with dots
/// between; a package that there is none of leaves no dot.
pub proof fn law_full_names_are_joined_with_dots(
    package: Seq<char>,
    scope: Seq<Seq<char>>,
    outer: Seq<char>,
    name: Seq<char>,
)
    ensures
        package.len() > 0 ==> proto::full_name_of(package, Seq::empty(), name) == package + seq!['.']
            + name,
        proto::full_name_of(Seq::empty(), Seq::empty(), name) == name,
        proto::full_name_of(package, scope.push(outer), name) == proto::full_name_of(
            package,
            scope,
            outer,
        ) + seq!['.'] + name,
{
    assert(scope.push(outer).drop_last() == scope);
    let inside = proto::full_name_of(package, scope, outer);
    assert(proto::dotted(inside, name) == inside + seq!['.'] + name);
    assert(proto::dotted(package, name) == package + seq!['.'] + name);
}

/// A full name stands for the message that it is of, else for the enum, which travels
/// as a varint.
pub proof fn law_what_a_full_name_stands_for(file: FileModel, name: Seq<char>)
    ensures
        file.messages.contains_key(name) ==> proto::named(file, name) == Some(
            KindModel::Message(name),
        ),
        !file.messages.contains_key(name) && file.enums.contains(name) ==> proto::named(file, name)
            == Some(KindModel::Varint),
        !file.messages.contains_key(name) && !file.enums.contains(name) ==> proto::named(
            file,
            name,
        ) is None,
{
}

/// Whether a name that is seen from inside `scope` is defined in one of the scopes from
/// the innermost message out to the package.
pub open spec fn defined_in_a_scope(
    file: FileModel,
    scope: Seq<Seq<char>>,
    name: Seq<char>,
) -> bool {
    exists|depth: int|
        0 <= depth <= scope.len() && {
            let full = proto::full_name_of(file.package, #[trigger] scope.take(depth), name);
            file.messages.contains_key(full) || file.enums.contains(full)
        }
}

proof fn lemma_no_scope(
    file: FileModel,
    scope: Seq<Seq<char>>,
    name: Seq<char>,
    depth: int,
)
    requires
        -1 <= depth <= scope.len(),
        !defined_in_a_scope(file, scope, name),
    ensures
        proto::nearest(file, scope, name, depth) == proto::nearest(file, scope, name, -1),
    decreases depth + 1,
{
    if depth >= 0 {
        let full = proto::full_name_of(file.package, scope.take(depth), name);
        assert(!(file.messages.contains_key(full) || file.enums.contains(full)));
        lemma_no_scope(file, scope, name, depth - 1);
    }
}

/// A name that no scope defines is looked for as a full name, among messages and enums
/// alike: it stands for the message of that full name, or for the enum, or, where there
/// is neither, for a type that is not looked into.
pub proof fn law_a_name_may_be_written_in_full(
    file: FileModel,
    scope: Seq<Seq<char>>,
    written: Seq<char>,
)
    requires
        !scalar_name(written),
        written.len() == 0 || written[0] != '.',
        !defined_in_a_scope(file, scope, written),
    ensures
        proto::resolved(file, scope, written) == (if file.messages.contains_key(written) {
            KindModel::Message(written)
        } else if file.enums.contains(written) {
            KindModel::Varint
        } else {
            KindModel::Opaque
        }),
{
    law_the_scalar_types(written);
    lemma_no_scope(file, scope, written, scope.len() as int);
}

/// A name that a scope defines, and none further in does, stands for what it is there:
/// the message of that scope, or the enum.
pub proof fn law_a_name_stands_for_what_it_is_in_the_nearest_scope(
    file: FileModel,
    scope: Seq<Seq<char>>,
    written: Seq<char>,
    depth: int,
)
    requires
        !scalar_name(written),
        written.len() == 0 || written[0] != '.',
        0 <= depth <= scope.len(),
        forall|deeper: int|
            #![trigger scope.take(deeper)]
            depth < deeper <= scope.len() ==> {
                let full = proto::full_name_of(file.package, scope.take(deeper), written);
                !file.messages.contains_key(full) && !file.enums.contains(full)
            },
        ({
            let full = proto::full_name_of(file.package, scope.take(depth), written);
            file.messages.contains_key(full) || file.enums.contains(full)
        }),
    ensures
        ({
            let full = proto::full_name_of(file.package, scope.take(depth), written);
            proto::resolved(file, scope, written) == (if file.messages.contains_key(full) {
                KindModel::Message(full)
            } else {
                KindModel::Varint
            })
        }),
{
    law_the_scalar_types(written);
    schema::law_nearest_scope_wins(file, scope, written, depth);
}

/// A dot before a name that is no scalar type says nothing.
pub proof fn law_a_leading_dot_says_nothing(
    file: FileModel,
    scope: Seq<Seq<char>>,
    written: Seq<char>,
)
    requires
        !scalar_name(written),
    ensures
        proto::resolved(file, scope, seq!['.'] + written) == proto::resolved(file, scope, written),
{
    lemma_scalar_names();
    let dotted = seq!['.'] + written;
    assert(!scalar_name(dotted));
    law_the_scalar_types(written);
    law_the_scalar_types(dotted);
    assert(dotted.drop_first() == written);
}

/// A message is found by its full name, else by its name in the package.
pub proof fn law_how_a_message_is_found(file: FileModel, name: Seq<char>)
    ensures
        proto::lookup(file, name) == (if file.messages.contains_key(name) {
            Some(file.messages[name])
        } else if file.messages.contains_key(file.package + seq!['.'] + name) {
            Some(file.messages[file.package + seq!['.'] + name])
        } else {
            None
        }),
        crate::protobuf::bound_name(file, name) == (if file.messages.contains_key(name) {
            Some(name)
        } else if file.messages.contains_key(file.package + seq!['.'] + name) {
            Some(file.package + seq!['.'] + name)
        } else {
            None
        }),
{
    assert(proto::dotted(file.package, name) == file.package + seq!['.'] + name);
}

/// Whether two kinds are the same but for a type that the first leaves open: of a map
/// that is the type of the values.
pub open spec fn only_opened(before: KindModel, after: KindModel) -> bool {
    match before {
        KindModel::Opaque => true,
        KindModel::MapOf(keys, _) => after matches KindModel::MapOf(other, _) && *other == *keys,
        _ => after == before,
    }
}

/// Looking types up gives fields kinds that were left open, and changes nothing else:
/// after it there are the same messages with the same field numbers, and every field
/// has its name, is repeated or not as it was, and has its kind if that was known, of a
/// map the kind of its keys.
pub proof fn law_looking_types_up_changes_kinds_alone(
    file: FileModel,
    pending: Seq<Pending>,
    message: Seq<char>,
    number: u32,
)
    ensures
        ({
            let whole = grammar::settle_all(file, pending);
            &&& whole.package == file.package
            &&& whole.imports == file.imports
            &&& whole.enums == file.enums
            &&& whole.messages.contains_key(message) == file.messages.contains_key(message)
            &&& has_field(whole.messages, message, number) == has_field(
                file.messages,
                message,
                number,
            )
            &&& has_field(file.messages, message, number) ==> {
                let (before, after) = (
                    file.messages[message][number],
                    whole.messages[message][number],
                );
                &&& after.name == before.name
                &&& after.repeated == before.repeated
                &&& only_opened(before.kind, after.kind)
            }
        }),
    decreases pending.len(),
{
    if pending.len() > 0 {
        law_looking_types_up_changes_kinds_alone(file, pending.drop_first(), message, number);
        law_looking_types_up_changes_kinds_alone(
            grammar::settle(file, pending[0]),
            pending.drop_first(),
            message,
            number,
        );
    }
}

/// A type that is looked up is the kind of its field, or of the values where the field
/// is a map: what its name stands for in the whole file, seen from the messages around
/// the field.
pub proof fn law_a_type_looked_up_is_the_kind(file: FileModel, pending: Seq<Pending>, i: int)
    requires
        0 <= i < pending.len(),
        has_field(file.messages, pending[i].message, pending[i].number),
        forall|j: int|
            i < j < pending.len() ==> !((#[trigger] pending[j]).message == pending[i].message
                && pending[j].number == pending[i].number),
    ensures
        ({
            let whole = grammar::settle_all(file, pending);
            let before = file.messages[pending[i].message][pending[i].number];
            let after = whole.messages[pending[i].message][pending[i].number];
            let found = proto::resolved(whole, pending[i].scope, pending[i].written);
            after == (match before.kind {
                KindModel::Opaque => FieldModel { kind: found, ..before },
                KindModel::MapOf(keys, _) => FieldModel {
                    kind: KindModel::MapOf(keys, Box::new(found)),
                    ..before
                },
                _ => before,
            })
        }),
{
    assert forall|j: int| i < j < pending.len() implies !grammar::is_of(
        #[trigger] pending[j],
        pending[i].message,
        pending[i].number,
    ) by {}
    schema::law_types_are_looked_up_in_the_whole_file(file, pending, i);
}

/// What is stated of kinds, fields and files is stated of what they hold: a kind is
/// shown as itself with its names and kinds inside it, a field with its name, its kind
/// and whether it is repeated, and a file with all that it says.
pub proof fn law_what_is_shown(kind: Kind, field: Field, message: Message, file: File, number: u32)
    ensures
        kind@ == (match kind {
            Kind::Varint => KindModel::Varint,
            Kind::Fixed64 => KindModel::Fixed64,
            Kind::Fixed32 => KindModel::Fixed32,
            Kind::Text => KindModel::Text,
            Kind::Bytes => KindModel::Bytes,
            Kind::Message(name) => KindModel::Message(name@),
            Kind::MapOf(keys, values) => KindModel::MapOf(Box::new(keys@), Box::new(values@)),
            Kind::Opaque => KindModel::Opaque,
        }),
        field@ == (FieldModel { name: field.name@, kind: field.kind@, repeated: field.repeated }),
        message@.contains_key(number) == message.fields@.contains_key(number),
        message@.contains_key(number) ==> message@[number] == message.fields@[number]@,
        file@.package == file.package@,
        file@.messages == file.messages@,
        file@.imports.len() == file.imports@.len(),
        file@.enums.len() == file.enums@.len(),
        forall|i: int|
            0 <= i < file.imports@.len() ==> #[trigger] file@.imports[i] == file.imports@[i]@,
        forall|i: int| 0 <= i < file.enums@.len() ==> #[trigger] file@.enums[i] == file.enums@[i]@,
{
}

} // verus!
