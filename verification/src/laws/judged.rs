//! What a message asks of each field, kind by kind, and what is told of a field that
//! is not so.
use crate::laws::walk;
use crate::laws::walk::{conforms, sound, value_conforms};
use crate::proto::{FieldModel, KindModel, MessageModel, MessagesModel};
use crate::reader;
use crate::reader::{Reason, Tag, WireType};
use crate::text;
use crate::wire;
use crate::wire::Departure;
use vstd::prelude::*;

verus! {

/// Whether a field found on the wire fits a kind, `repeated` or not. Numbers travel as
/// varints, eight bytes or four, or, repeated, packed back to back; all else with its
/// length before it: a string is UTF-8, a message is one of its type, or sound where
/// the file does not define it, and in a map entry every field 1 fits the kind of the
/// keys and every field 2 that of the values.
pub open spec fn fits(
    wire: WireType,
    value: Seq<u8>,
    kind: KindModel,
    repeated: bool,
    messages: MessagesModel,
) -> bool
    decreases kind,
{
    match kind {
        KindModel::Varint => wire == WireType::Varint || wire == WireType::Len && repeated && exists|
            parts: Seq<Seq<u8>>,
        |
            walk::all_varints(parts) && #[trigger] walk::back_to_back(parts) == value,
        KindModel::Fixed64 => wire == WireType::I64 || wire == WireType::Len && repeated
            && value.len() % 8 == 0,
        KindModel::Fixed32 => wire == WireType::I32 || wire == WireType::Len && repeated
            && value.len() % 4 == 0,
        KindModel::Text => wire == WireType::Len && vstd::utf8::valid_utf8(value),
        KindModel::Bytes => wire == WireType::Len,
        KindModel::Opaque => wire == WireType::Len,
        KindModel::Message(name) => wire == WireType::Len && if messages.contains_key(name) {
            conforms(value, messages[name], messages)
        } else {
            sound(value)
        },
        KindModel::MapOf(keys, values) => {
            &&& wire == WireType::Len
            &&& sound(value)
            &&& forall|i: int|
                #![trigger reader::fields_from(value, 0)[i]]
                0 <= i < reader::fields_from(value, 0).len() ==> {
                    let found = reader::fields_from(value, 0)[i];
                    let part = value.subrange(found.start, found.end);
                    &&& found.tag.number == 1 ==> fits(found.tag.wire, part, *keys, false, messages)
                    &&& found.tag.number == 2 ==> fits(
                        found.tag.wire,
                        part,
                        *values,
                        false,
                        messages,
                    )
                }
        },
    }
}

/// Whether each field among bytes is unknown to a message or fits the kind that the
/// message gives it.
pub open spec fn all_fit(bytes: Seq<u8>, message: MessageModel, messages: MessagesModel) -> bool {
    forall|i: int|
        #![trigger reader::fields_from(bytes, 0)[i]]
        0 <= i < reader::fields_from(bytes, 0).len() ==> {
            let found = reader::fields_from(bytes, 0)[i];
            let field = message[found.tag.number];
            message.contains_key(found.tag.number) ==> fits(
                found.tag.wire,
                bytes.subrange(found.start, found.end),
                field.kind,
                field.repeated,
                messages,
            )
        }
}

/// What a walk makes of a field whose kind is known.
spec fn judged(wire: WireType, value: Seq<u8>, field: FieldModel, messages: MessagesModel) -> bool {
    let expected = wire::wire_of(field.kind);
    ||| wire == expected && value_conforms(value, field.kind, messages)
    ||| {
        &&& wire == WireType::Len
        &&& expected != WireType::Len
        &&& field.repeated
        &&& wire::packed_fault(value, expected) is None
    }
}

proof fn lemma_fits(wire: WireType, value: Seq<u8>, field: FieldModel, messages: MessagesModel)
    ensures
        judged(wire, value, field, messages) <==> fits(
            wire,
            value,
            field.kind,
            field.repeated,
            messages,
        ),
    decreases field.kind,
{
    match field.kind {
        KindModel::Varint => {
            walk::law_packed_values_are_whole(value, WireType::Varint);
        },
        KindModel::Fixed64 => {
            walk::law_packed_values_are_whole(value, WireType::I64);
        },
        KindModel::Fixed32 => {
            walk::law_packed_values_are_whole(value, WireType::I32);
        },
        KindModel::MapOf(keys, values) => {
            let entry = wire::entry_of(*keys, *values);
            walk::law_conformance(value, entry, messages);
            assert forall|i: int|
                #![trigger reader::fields_from(value, 0)[i]]
                0 <= i < reader::fields_from(value, 0).len() implies ({
                let found = reader::fields_from(value, 0)[i];
                let part = value.subrange(found.start, found.end);
                walk::field_conforms(value, found, entry, messages) <==> {
                    &&& found.tag.number == 1 ==> fits(found.tag.wire, part, *keys, false, messages)
                    &&& found.tag.number == 2 ==> fits(
                        found.tag.wire,
                        part,
                        *values,
                        false,
                        messages,
                    )
                }
            }) by {
                let found = reader::fields_from(value, 0)[i];
                let part = value.subrange(found.start, found.end);
                let key = FieldModel { name: "key"@, kind: *keys, repeated: false };
                let of_value = FieldModel { name: "value"@, kind: *values, repeated: false };
                lemma_fits(found.tag.wire, part, key, messages);
                lemma_fits(found.tag.wire, part, of_value, messages);
            }
        },
        _ => {},
    }
}

/// Bytes are a message of a type exactly when they are sound wire format and each
/// field that the type knows fits the kind it gives it, wherever in the bytes it
/// stands.
pub proof fn law_every_known_field_fits(
    bytes: Seq<u8>,
    message: MessageModel,
    messages: MessagesModel,
)
    ensures
        conforms(bytes, message, messages) <==> sound(bytes) && all_fit(bytes, message, messages),
{
    walk::law_conformance(bytes, message, messages);
    assert forall|i: int|
        #![trigger reader::fields_from(bytes, 0)[i]]
        0 <= i < reader::fields_from(bytes, 0).len() implies ({
        let found = reader::fields_from(bytes, 0)[i];
        let field = message[found.tag.number];
        walk::field_conforms(bytes, found, message, messages) <==> (message.contains_key(
            found.tag.number,
        ) ==> fits(
            found.tag.wire,
            bytes.subrange(found.start, found.end),
            field.kind,
            field.repeated,
            messages,
        ))
    }) by {
        let found = reader::fields_from(bytes, 0)[i];
        lemma_fits(
            found.tag.wire,
            bytes.subrange(found.start, found.end),
            message[found.tag.number],
            messages,
        );
    }
}

/// A map entry is a key and a value: it is sound wire format, every field 1 of it fits
/// the kind of the keys and every field 2 that of the values, and it is held to
/// nothing else.
pub proof fn law_a_map_entry_is_a_key_and_a_value(
    value: Seq<u8>,
    keys: KindModel,
    values: KindModel,
    messages: MessagesModel,
)
    ensures
        value_conforms(value, KindModel::MapOf(Box::new(keys), Box::new(values)), messages) <==> {
            &&& sound(value)
            &&& forall|i: int|
                #![trigger reader::fields_from(value, 0)[i]]
                0 <= i < reader::fields_from(value, 0).len() ==> {
                    let found = reader::fields_from(value, 0)[i];
                    let part = value.subrange(found.start, found.end);
                    &&& found.tag.number == 1 ==> fits(found.tag.wire, part, keys, false, messages)
                    &&& found.tag.number == 2 ==> fits(found.tag.wire, part, values, false, messages)
                }
        },
{
    let kind = KindModel::MapOf(Box::new(keys), Box::new(values));
    let field = FieldModel { name: Seq::empty(), kind, repeated: false };
    lemma_fits(WireType::Len, value, field, messages);
}

/// A value that is a message, in a field or in a map entry, conforms exactly when it is
/// one of its type.
pub proof fn law_messages_in_maps_are_walked(
    value: Seq<u8>,
    keys: KindModel,
    name: Seq<char>,
    messages: MessagesModel,
    i: int,
)
    requires
        messages.contains_key(name),
        value_conforms(
            value,
            KindModel::MapOf(Box::new(keys), Box::new(KindModel::Message(name))),
            messages,
        ),
        0 <= i < reader::fields_from(value, 0).len(),
        reader::fields_from(value, 0)[i].tag.number == 2,
    ensures
        ({
            let found = reader::fields_from(value, 0)[i];
            &&& found.tag.wire == WireType::Len
            &&& conforms(value.subrange(found.start, found.end), messages[name], messages)
        }),
{
    law_a_map_entry_is_a_key_and_a_value(value, keys, KindModel::Message(name), messages);
}

/// The number of a wire type on the wire.
pub open spec fn code(wire: WireType) -> nat {
    match wire {
        WireType::Varint => 0,
        WireType::I64 => 1,
        WireType::Len => 2,
        WireType::Group => 3,
        WireType::I32 => 5,
    }
}

/// The wire type that a kind travels as when it is not packed.
pub open spec fn travels_as(kind: KindModel) -> WireType {
    match kind {
        KindModel::Varint => WireType::Varint,
        KindModel::Fixed64 => WireType::I64,
        KindModel::Fixed32 => WireType::I32,
        KindModel::Text | KindModel::Bytes | KindModel::Opaque | KindModel::Message(_)
        | KindModel::MapOf(_, _) => WireType::Len,
    }
}

/// A stop in words: why, and at which byte.
pub open spec fn told(stop: (Reason, int)) -> Seq<char> {
    reader::reason_text(stop.0) + " (byte "@ + text::decimal(stop.1 as nat) + ")"@
}

/// Bytes that are no field are told at the path of the message, and a field that the
/// message does not know is passed over, or told there with its number if it is cut
/// off.
pub proof fn law_what_is_told_of_no_field_and_of_an_unknown_one(
    bytes: Seq<u8>,
    at: int,
    message: MessageModel,
    messages: MessagesModel,
    path: Seq<char>,
)
    requires
        0 <= at <= bytes.len(),
    ensures
        match reader::tag_at(bytes, at) {
            Ok(None) => wire::departure_from(bytes, at, message, messages, path) is None,
            Err(stop) => wire::departure_from(bytes, at, message, messages, path) == Some(
                Departure { what: told(stop), packed: false, path },
            ),
            Ok(Some((tag, next))) => !message.contains_key(tag.number) ==> (match reader::value_at(
                bytes,
                next,
                tag,
            ) {
                Err(stop) => wire::departure_from(bytes, at, message, messages, path) == Some(
                    Departure {
                        what: told(stop) + " in unknown field "@ + text::decimal(
                            tag.number as nat,
                        ),
                        packed: false,
                        path,
                    },
                ),
                Ok((_, end)) => wire::departure_from(bytes, at, message, messages, path)
                    == wire::departure_from(bytes, end, message, messages, path),
            }),
        },
{
    if let Ok(Some(_)) = reader::tag_at(bytes, at) {
        wire::lemma_departure_from(bytes, at, message, messages, path);
    }
}

/// A known field of another wire type than its kind's, that is no packed value of a
/// repeated number, is told with both wire types, at its own path.
pub proof fn law_what_is_told_of_a_wrong_wire_type(
    bytes: Seq<u8>,
    at: int,
    message: MessageModel,
    messages: MessagesModel,
    path: Seq<char>,
    tag: Tag,
    next: int,
)
    requires
        0 <= at <= bytes.len(),
        reader::tag_at(bytes, at) == Ok::<Option<(Tag, int)>, (Reason, int)>(Some((tag, next))),
        message.contains_key(tag.number),
        tag.wire != travels_as(message[tag.number].kind),
        !(tag.wire == WireType::Len && message[tag.number].repeated),
    ensures
        wire::departure_from(bytes, at, message, messages, path) == Some(
            Departure {
                what: "wire type "@ + text::decimal(code(tag.wire)) + " where "@
                    + message[tag.number].name + " is "@ + text::decimal(
                    code(travels_as(message[tag.number].kind)),
                ),
                packed: false,
                path: path.push('.') + message[tag.number].name,
            },
        ),
{
    wire::lemma_departure_from(bytes, at, message, messages, path);
}

/// A known field of its kind's wire type: one that is cut off, or a string that is not
/// UTF-8, is told at its own path, an embedded message is walked there as its type, or
/// as any fields where the file does not define it, and a map entry as a message of
/// `key` and `value`; any other value is passed over, and so is one with nothing to
/// tell.
pub proof fn law_what_is_told_of_a_value(
    bytes: Seq<u8>,
    at: int,
    message: MessageModel,
    messages: MessagesModel,
    path: Seq<char>,
    tag: Tag,
    next: int,
)
    requires
        0 <= at <= bytes.len(),
        reader::tag_at(bytes, at) == Ok::<Option<(Tag, int)>, (Reason, int)>(Some((tag, next))),
        message.contains_key(tag.number),
        tag.wire == travels_as(message[tag.number].kind),
    ensures
        ({
            let field = message[tag.number];
            let own = path.push('.') + field.name;
            let told_here = wire::departure_from(bytes, at, message, messages, path);
            match reader::value_at(bytes, next, tag) {
                Err(stop) => told_here == Some(
                    Departure { what: told(stop), packed: false, path: own },
                ),
                Ok((start, end)) => {
                    let value = bytes.subrange(start, end);
                    let inside = match field.kind {
                        KindModel::Text => if vstd::utf8::valid_utf8(value) {
                            None
                        } else {
                            Some(
                                Departure {
                                    what: "a string that is not UTF-8"@,
                                    packed: false,
                                    path: own,
                                },
                            )
                        },
                        KindModel::Message(name) => if messages.contains_key(name) {
                            wire::departure(value, messages[name], messages, own)
                        } else {
                            match reader::stop_from(value, 0) {
                                Some(stop) => Some(
                                    Departure { what: told(stop), packed: false, path: own },
                                ),
                                None => None,
                            }
                        },
                        KindModel::MapOf(keys, values) => wire::departure(
                            value,
                            map![
                                1u32 => FieldModel { name: "key"@, kind: *keys, repeated: false },
                                2u32 => FieldModel {
                                    name: "value"@,
                                    kind: *values,
                                    repeated: false,
                                },
                            ],
                            messages,
                            own,
                        ),
                        _ => None,
                    };
                    told_here == (match inside {
                        Some(departure) => Some(departure),
                        None => wire::departure_from(bytes, end, message, messages, path),
                    })
                },
            }
        }),
{
    wire::lemma_departure_from(bytes, at, message, messages, path);
    if let KindModel::MapOf(keys, values) = message[tag.number].kind {
        assert(wire::entry_of(*keys, *values) =~= map![
            1u32 => FieldModel { name: "key"@, kind: *keys, repeated: false },
            2u32 => FieldModel { name: "value"@, kind: *values, repeated: false },
        ]);
    }
}

/// The numbers of a repeated field that are packed into one value: fixed ones that are
/// not whole are told with their width, varints with where they stop, at the path of
/// the field; whole ones are passed over.
pub proof fn law_what_is_told_of_packed_values(
    bytes: Seq<u8>,
    at: int,
    message: MessageModel,
    messages: MessagesModel,
    path: Seq<char>,
    tag: Tag,
    next: int,
)
    requires
        0 <= at <= bytes.len(),
        reader::tag_at(bytes, at) == Ok::<Option<(Tag, int)>, (Reason, int)>(Some((tag, next))),
        message.contains_key(tag.number),
        tag.wire == WireType::Len,
        message[tag.number].repeated,
        travels_as(message[tag.number].kind) != WireType::Len,
    ensures
        ({
            let field = message[tag.number];
            let own = path.push('.') + field.name;
            let told_here = wire::departure_from(bytes, at, message, messages, path);
            match reader::value_at(bytes, next, tag) {
                Err(stop) => told_here == Some(
                    Departure { what: told(stop), packed: false, path: own },
                ),
                Ok((start, end)) => {
                    let value = bytes.subrange(start, end);
                    let width = if field.kind == KindModel::Fixed64 {
                        8nat
                    } else {
                        4
                    };
                    let what = if field.kind == KindModel::Varint {
                        match wire::varints_stop(value, 0) {
                            Some(stop) => Some(told(stop)),
                            None => None,
                        }
                    } else if value.len() % width != 0 {
                        Some(
                            text::decimal(value.len()) + " bytes of "@ + text::decimal(width)
                                + "-byte values"@,
                        )
                    } else {
                        None
                    };
                    told_here == (match what {
                        Some(what) => Some(Departure { what, packed: true, path: own }),
                        None => wire::departure_from(bytes, end, message, messages, path),
                    })
                },
            }
        }),
{
    wire::lemma_departure_from(bytes, at, message, messages, path);
}

/// Where packed varints stop is where the first of them does that is none, after whole
/// ones; a packed varint stops as one anywhere does.
pub proof fn law_where_packed_varints_stop(a: Seq<u8>, b: Seq<u8>)
    requires
        wire::varints_stop(a, 0) is None,
        b.len() > 0,
    ensures
        match reader::varint_at(b, 0) {
            Err((reason, at)) => wire::varints_stop(a + b, 0) == Some((reason, a.len() + at)),
            Ok((_, end)) => wire::varints_stop(a + b, 0) == wire::varints_stop(
                a + b,
                a.len() + end,
            ),
        },
{
    lemma_varints_pass(a, b, 0);
    crate::laws::joined::lemma_varint_after(a, b, 0);
    reader::lemma_varint(b, 0);
}

proof fn lemma_varints_pass(a: Seq<u8>, b: Seq<u8>, at: int)
    requires
        0 <= at <= a.len(),
        wire::varints_stop(a, at) is None,
    ensures
        wire::varints_stop(a + b, at) == wire::varints_stop(a + b, a.len() as int),
    decreases a.len() - at,
{
    if at < a.len() {
        reader::lemma_varint(a, at);
        crate::laws::joined::lemma_varint_before(a, b, at);
        if let Ok((_, end)) = reader::varint_at(a, at) {
            lemma_varints_pass(a, b, end);
        }
    }
}

/// A departure in words is what is wrong, ` at ` and its path, or ` in packed ` and its
/// path where it is among packed values.
pub proof fn law_a_departure_in_words(what: Seq<char>, path: Seq<char>)
    ensures
        (Departure { what, packed: false, path }).text() == what + " at "@ + path,
        (Departure { what, packed: true, path }).text() == what + " in packed "@ + path,
{
}

/// A walk begins at the first byte.
pub proof fn law_a_walk_begins_at_the_first_byte(
    bytes: Seq<u8>,
    message: MessageModel,
    messages: MessagesModel,
    path: Seq<char>,
)
    ensures
        wire::departure(bytes, message, messages, path) == wire::departure_from(
            bytes,
            0,
            message,
            messages,
            path,
        ),
{
}

} // verus!
