//! What holds of walks over bytes, with a schema and without.
use crate::laws::joined;
use crate::proto;
use crate::proto::{KindModel, MessageModel, MessagesModel};
use crate::reader;
use crate::reader::{Found, Reason, Tag, WireType};
use crate::text;
use crate::wire;
use vstd::prelude::*;

verus! {

/// Whether bytes are sound wire format.
pub open spec fn sound(bytes: Seq<u8>) -> bool {
    reader::stop_from(bytes, 0) is None
}

/// Whether bytes are a message of that type.
pub open spec fn conforms(bytes: Seq<u8>, message: MessageModel, messages: MessagesModel) -> bool {
    wire::departure(bytes, message, messages, Seq::empty()) is None
}

/// Whether a value is of that kind.
pub open spec fn value_conforms(value: Seq<u8>, kind: KindModel, messages: MessagesModel) -> bool {
    wire::value_departure(value, kind, messages, Seq::empty()) is None
}

/// Whether a field found among bytes is what the message says of it: unknown to
/// it; or of the wire type of its kind, with a value of that kind; or the packed
/// values of a repeated scalar.
pub open spec fn field_conforms(
    bytes: Seq<u8>,
    found: Found,
    message: MessageModel,
    messages: MessagesModel,
) -> bool {
    let value = bytes.subrange(found.start, found.end);
    let field = message[found.tag.number];
    let wire = wire::wire_of(field.kind);
    ||| !message.contains_key(found.tag.number)
    ||| found.tag.wire == wire && value_conforms(value, field.kind, messages)
    ||| {
        &&& found.tag.wire == WireType::Len
        &&& wire != WireType::Len
        &&& field.repeated
        &&& wire::packed_fault(value, wire) is None
    }
}

/// The path that a message is given says nothing about whether it is one.
pub proof fn law_path_does_not_decide(
    bytes: Seq<u8>,
    message: MessageModel,
    messages: MessagesModel,
    path: Seq<char>,
)
    ensures
        wire::departure(bytes, message, messages, path) is None <==> conforms(
            bytes,
            message,
            messages,
        ),
{
    lemma_path_does_not_decide(bytes, 0, message, messages, path, Seq::empty());
}

proof fn lemma_path_does_not_decide(
    bytes: Seq<u8>,
    at: int,
    message: MessageModel,
    messages: MessagesModel,
    path: Seq<char>,
    other: Seq<char>,
)
    requires
        0 <= at <= bytes.len(),
    ensures
        wire::departure_from(bytes, at, message, messages, path) is None
            <==> wire::departure_from(bytes, at, message, messages, other) is None,
    decreases bytes.len(), 0nat, bytes.len() - at,
{
    reader::lemma_head(bytes, at);
    if let Ok(Some((tag, next))) = reader::tag_at(bytes, at) {
        reader::lemma_value(bytes, next, tag);
        wire::lemma_departure_from(bytes, at, message, messages, path);
        wire::lemma_departure_from(bytes, at, message, messages, other);
        if let Ok((start, end)) = reader::value_at(bytes, next, tag) {
            lemma_path_does_not_decide(bytes, end, message, messages, path, other);
            if message.contains_key(tag.number) {
                let field = message[tag.number];
                lemma_path_does_not_decide_value(
                    bytes.subrange(start, end),
                    field.kind,
                    messages,
                    proto::dotted(path, field.name),
                    proto::dotted(other, field.name),
                );
            }
        }
    }
}

proof fn lemma_path_does_not_decide_value(
    value: Seq<u8>,
    kind: KindModel,
    messages: MessagesModel,
    path: Seq<char>,
    other: Seq<char>,
)
    ensures
        wire::value_departure(value, kind, messages, path) is None <==> wire::value_departure(
            value,
            kind,
            messages,
            other,
        ) is None,
    decreases value.len(), 1nat, 0int,
{
    match kind {
        KindModel::Message(name) => {
            if messages.contains_key(name) {
                lemma_path_does_not_decide(value, 0, messages[name], messages, path, other);
            }
        },
        KindModel::MapOf(key, value_kind) => {
            lemma_path_does_not_decide(
                value,
                0,
                wire::entry_of(*key, *value_kind),
                messages,
                path,
                other,
            );
        },
        _ => {},
    }
}

/// Bytes are a message of a type exactly when they are sound wire format and
/// each field among them is what the type says of it.
pub proof fn law_conformance(bytes: Seq<u8>, message: MessageModel, messages: MessagesModel)
    ensures
        conforms(bytes, message, messages) <==> {
            &&& sound(bytes)
            &&& forall|i: int|
                0 <= i < reader::fields_from(bytes, 0).len() ==> field_conforms(
                    bytes,
                    #[trigger] reader::fields_from(bytes, 0)[i],
                    message,
                    messages,
                )
        },
{
    lemma_conformance(bytes, 0, message, messages);
}

proof fn lemma_conformance(
    bytes: Seq<u8>,
    at: int,
    message: MessageModel,
    messages: MessagesModel,
)
    requires
        0 <= at <= bytes.len(),
    ensures
        wire::departure_from(bytes, at, message, messages, Seq::empty()) is None <==> {
            &&& reader::stop_from(bytes, at) is None
            &&& forall|i: int|
                0 <= i < reader::fields_from(bytes, at).len() ==> field_conforms(
                    bytes,
                    #[trigger] reader::fields_from(bytes, at)[i],
                    message,
                    messages,
                )
        },
    decreases bytes.len() - at,
{
    reader::lemma_head(bytes, at);
    if let Ok(Some((tag, next))) = reader::tag_at(bytes, at) {
        reader::lemma_value(bytes, next, tag);
        wire::lemma_departure_from(bytes, at, message, messages, Seq::empty());
        if let Ok((start, end)) = reader::value_at(bytes, next, tag) {
            let fields = reader::fields_from(bytes, at);
            let rest = reader::fields_from(bytes, end);
            assert(fields == seq![Found { from: at, tag, start, end }] + rest);
            lemma_conformance(bytes, end, message, messages);
            assert(forall|i: int| 0 <= i < rest.len() ==> #[trigger] rest[i] == fields[i + 1]);
            assert(forall|i: int| 1 <= i < fields.len() ==> #[trigger] fields[i] == rest[i - 1]);
            assert(fields[0] == Found { from: at, tag, start, end });
            if message.contains_key(tag.number) {
                let field = message[tag.number];
                lemma_path_does_not_decide_value(
                    bytes.subrange(start, end),
                    field.kind,
                    messages,
                    proto::dotted(Seq::empty(), field.name),
                    Seq::empty(),
                );
            }
        }
    }
}

/// A message of any type is sound wire format.
pub proof fn law_a_message_is_sound(
    bytes: Seq<u8>,
    message: MessageModel,
    messages: MessagesModel,
)
    requires
        conforms(bytes, message, messages),
    ensures
        sound(bytes),
{
    law_conformance(bytes, message, messages);
}

/// Fields that a message does not know are left alone: bytes that hold no other
/// are a message of its type exactly when they are sound wire format.
pub proof fn law_unknown_fields_are_left_alone(
    bytes: Seq<u8>,
    message: MessageModel,
    messages: MessagesModel,
)
    requires
        forall|i: int|
            0 <= i < reader::fields_from(bytes, 0).len() ==> !message.contains_key(
                (#[trigger] reader::fields_from(bytes, 0)[i]).tag.number,
            ),
    ensures
        conforms(bytes, message, messages) <==> sound(bytes),
{
    law_conformance(bytes, message, messages);
}

/// Sound wire format stays sound when more follows it, exactly when what follows
/// is sound.
pub proof fn law_sound_parts_join(a: Seq<u8>, b: Seq<u8>)
    requires
        sound(a),
    ensures
        sound(a + b) <==> sound(b),
{
    joined::lemma_stop_before(a, b, 0);
    joined::lemma_stop_after(a, b, 0);
}

/// The parts of a message join: after a message of a type, what follows makes it
/// one of that type exactly when what follows is one of that type.
pub proof fn law_messages_join(
    a: Seq<u8>,
    b: Seq<u8>,
    message: MessageModel,
    messages: MessagesModel,
)
    requires
        conforms(a, message, messages),
    ensures
        conforms(a + b, message, messages) <==> conforms(b, message, messages),
{
    law_a_message_is_sound(a, message, messages);
    lemma_departure_before(a, b, 0, message, messages, Seq::empty());
    lemma_departure_after(a, b, 0, message, messages, Seq::empty());
}

/// The departure that is told is the first one: in sound wire format, whatever
/// follows does not change it.
pub proof fn law_first_departure_stands(
    a: Seq<u8>,
    b: Seq<u8>,
    message: MessageModel,
    messages: MessagesModel,
    path: Seq<char>,
)
    requires
        sound(a),
        wire::departure(a, message, messages, path) is Some,
    ensures
        wire::departure(a + b, message, messages, path) == wire::departure(
            a,
            message,
            messages,
            path,
        ),
{
    lemma_departure_before(a, b, 0, message, messages, path);
}

proof fn lemma_departure_before(
    a: Seq<u8>,
    b: Seq<u8>,
    at: int,
    message: MessageModel,
    messages: MessagesModel,
    path: Seq<char>,
)
    requires
        0 <= at <= a.len(),
        reader::stop_from(a, at) is None,
    ensures
        wire::departure_from(a + b, at, message, messages, path) == (match wire::departure_from(
            a,
            at,
            message,
            messages,
            path,
        ) {
            Some(departure) => Some(departure),
            None => wire::departure_from(a + b, a.len() as int, message, messages, path),
        }),
    decreases a.len() - at,
{
    reader::lemma_head(a, at);
    if let Ok(Some((tag, next))) = reader::tag_at(a, at) {
        joined::lemma_head_before(a, b, at);
        reader::lemma_value(a, next, tag);
        joined::lemma_value_before(a, b, next, tag);
        wire::lemma_departure_from(a, at, message, messages, path);
        wire::lemma_departure_from(a + b, at, message, messages, path);
        if let Ok((start, end)) = reader::value_at(a, next, tag) {
            assert((a + b).subrange(start, end) == a.subrange(start, end));
            lemma_departure_before(a, b, end, message, messages, path);
        }
    }
}

proof fn lemma_departure_after(
    a: Seq<u8>,
    b: Seq<u8>,
    at: int,
    message: MessageModel,
    messages: MessagesModel,
    path: Seq<char>,
)
    requires
        0 <= at <= b.len(),
    ensures
        wire::departure_from(a + b, a.len() + at, message, messages, path) is None
            <==> wire::departure_from(b, at, message, messages, path) is None,
    decreases b.len() - at,
{
    let n = a.len() as int;
    joined::lemma_field_after(a, b, at);
    if let Ok(Some((tag, next))) = reader::tag_at(b, at) {
        wire::lemma_departure_from(b, at, message, messages, path);
        wire::lemma_departure_from(a + b, n + at, message, messages, path);
        lemma_same_value_same_judgement(
            a + b,
            n + next,
            b,
            next,
            tag,
            message,
            messages,
            path,
        );
        if let Ok((_, end)) = reader::value_at(b, next, tag) {
            lemma_departure_after(a, b, end, message, messages, path);
        }
    }
}

/// A field with the same value in two places is judged the same in both.
proof fn lemma_same_value_same_judgement(
    x: Seq<u8>,
    i: int,
    y: Seq<u8>,
    j: int,
    tag: Tag,
    message: MessageModel,
    messages: MessagesModel,
    path: Seq<char>,
)
    requires
        0 < i <= x.len(),
        0 < j <= y.len(),
        match (reader::value_at(x, i, tag), reader::value_at(y, j, tag)) {
            (Ok(a), Ok(b)) => x.subrange(a.0, a.1) == y.subrange(b.0, b.1),
            (Err(_), Err(_)) => true,
            _ => false,
        },
    ensures
        wire::field_departure(x, i, tag, message, messages, path) is None
            <==> wire::field_departure(y, j, tag, message, messages, path) is None,
{
}

/// Whether a path is `path` or leads on from it, after a dot.
pub open spec fn leads_on(path: Seq<char>, other: Seq<char>) -> bool {
    other == path || path.push('.').is_prefix_of(other)
}

/// The path that is told of a departure is that of the message, or leads on from it
/// after a dot.
pub proof fn law_departure_is_inside(
    bytes: Seq<u8>,
    message: MessageModel,
    messages: MessagesModel,
    path: Seq<char>,
)
    ensures
        wire::departure(bytes, message, messages, path) matches Some(departure)
            ==> leads_on(path, departure.path),
{
    lemma_departure_is_inside(bytes, 0, message, messages, path);
}

proof fn lemma_departure_is_inside(
    bytes: Seq<u8>,
    at: int,
    message: MessageModel,
    messages: MessagesModel,
    path: Seq<char>,
)
    requires
        0 <= at <= bytes.len(),
    ensures
        wire::departure_from(bytes, at, message, messages, path) matches Some(departure)
            ==> leads_on(path, departure.path),
    decreases bytes.len(), 0nat, bytes.len() - at,
{
    reader::lemma_head(bytes, at);
    if let Ok(Some((tag, next))) = reader::tag_at(bytes, at) {
        reader::lemma_value(bytes, next, tag);
        let field = message[tag.number];
        let field_path = proto::dotted(path, field.name);
        assert(leads_on(path, field_path));
        wire::lemma_departure_from(bytes, at, message, messages, path);
        if let Ok((start, end)) = reader::value_at(bytes, next, tag) {
            lemma_departure_is_inside(bytes, end, message, messages, path);
            if message.contains_key(tag.number) {
                let value = bytes.subrange(start, end);
                lemma_departure_is_inside_value(value, field.kind, messages, field_path);
                if let Some(departure) = wire::value_departure(
                    value,
                    field.kind,
                    messages,
                    field_path,
                ) {
                    assert(leads_on(path, departure.path));
                }
            }
        }
    }
}

proof fn lemma_departure_is_inside_value(
    value: Seq<u8>,
    kind: KindModel,
    messages: MessagesModel,
    path: Seq<char>,
)
    ensures
        wire::value_departure(value, kind, messages, path) matches Some(departure)
            ==> leads_on(path, departure.path),
    decreases value.len(), 1nat, 0int,
{
    match kind {
        KindModel::Message(name) => {
            if messages.contains_key(name) {
                lemma_departure_is_inside(value, 0, messages[name], messages, path);
            }
        },
        KindModel::MapOf(key, value_kind) => {
            lemma_departure_is_inside(
                value,
                0,
                wire::entry_of(*key, *value_kind),
                messages,
                path,
            );
        },
        _ => {},
    }
}

/// What a value has to be, by its kind: a string UTF-8, an embedded message one of
/// its type, or sound wire format where the file does not define the type, a map
/// entry a message of a key and a value; any other kind is not looked into.
pub proof fn law_what_a_value_has_to_be(value: Seq<u8>, kind: KindModel, messages: MessagesModel)
    ensures
        value_conforms(value, kind, messages) <==> match kind {
            KindModel::Text => vstd::utf8::valid_utf8(value),
            KindModel::Message(name) => if messages.contains_key(name) {
                conforms(value, messages[name], messages)
            } else {
                sound(value)
            },
            KindModel::MapOf(key, value_kind) => conforms(
                value,
                wire::entry_of(*key, *value_kind),
                messages,
            ),
            KindModel::Varint | KindModel::Fixed64 | KindModel::Fixed32 | KindModel::Bytes
            | KindModel::Opaque => true,
        },
{
}

/// A known field of another wire type than its kind's is told at its tag: whatever
/// stands after the tag, the departure is the field.
pub proof fn law_wrong_wire_type_is_told_at_the_tag(
    bytes: Seq<u8>,
    message: MessageModel,
    messages: MessagesModel,
    path: Seq<char>,
    tag: Tag,
    next: int,
)
    requires
        reader::tag_at(bytes, 0) == Ok::<Option<(Tag, int)>, (Reason, int)>(Some((tag, next))),
        message.contains_key(tag.number),
        tag.wire != wire::wire_of(message[tag.number].kind),
        tag.wire == WireType::Len ==> !message[tag.number].repeated,
    ensures
        wire::departure(bytes, message, messages, path) matches Some(departure) && {
            &&& !departure.packed
            &&& departure.path == proto::dotted(path, message[tag.number].name)
            &&& departure.what == "wire type "@ + text::decimal(reader::wire_number(tag.wire))
                + " where "@ + message[tag.number].name + " is "@ + text::decimal(
                reader::wire_number(wire::wire_of(message[tag.number].kind)),
            )
        },
{
    wire::lemma_departure_from(bytes, 0, message, messages, path);
}

proof fn lemma_varints_after(a: Seq<u8>, b: Seq<u8>, at: int)
    requires
        0 <= at <= b.len(),
    ensures
        wire::varints_stop(a + b, a.len() + at) is None <==> wire::varints_stop(b, at) is None,
    decreases b.len() - at,
{
    if at < b.len() {
        reader::lemma_varint(b, at);
        joined::lemma_varint_after(a, b, at);
        if let Ok((_, end)) = reader::varint_at(b, at) {
            lemma_varints_after(a, b, end);
        }
    }
}

proof fn lemma_varints_join(a: Seq<u8>, b: Seq<u8>, at: int)
    requires
        0 <= at <= a.len(),
        wire::varints_stop(a, at) is None,
    ensures
        wire::varints_stop(a + b, at) is None <==> wire::varints_stop(b, 0) is None,
    decreases a.len() - at,
{
    if at < a.len() {
        reader::lemma_varint(a, at);
        joined::lemma_varint_before(a, b, at);
        if let Ok((_, end)) = reader::varint_at(a, at) {
            lemma_varints_join(a, b, end);
        }
    } else {
        lemma_varints_after(a, b, 0);
    }
}

/// Packed values join: after whole values, bytes are whole values exactly when they
/// are by themselves.
pub proof fn law_packed_values_join(a: Seq<u8>, b: Seq<u8>, wire: WireType)
    requires
        wire::packed_fault(a, wire) is None,
    ensures
        wire::packed_fault(a + b, wire) is None <==> wire::packed_fault(b, wire) is None,
{
    match wire {
        WireType::I64 => {
            lemma_widths_join(a.len(), b.len(), 8);
        },
        WireType::I32 => {
            lemma_widths_join(a.len(), b.len(), 4);
        },
        _ => {
            lemma_varints_join(a, b, 0);
        },
    }
}

proof fn lemma_widths_join(n: nat, m: nat, width: nat)
    requires
        width == 4 || width == 8,
        wire::widths_fault(n, width) is None,
    ensures
        wire::widths_fault(n + m, width) is None <==> wire::widths_fault(m, width) is None,
{
    if width == 4 {
        assert(n % 4 == 0 ==> (n + m) % 4 == m % 4);
    } else {
        assert(n % 8 == 0 ==> (n + m) % 8 == m % 8);
    }
}

/// No bytes are no packed values, and no fault.
pub proof fn law_no_packed_values(wire: WireType)
    ensures
        wire::packed_fault(Seq::empty(), wire) is None,
{
}

/// Whether bytes are one varint, none over.
pub open spec fn one_varint(bytes: Seq<u8>) -> bool {
    reader::varint_at(bytes, 0) matches Ok((_, end)) && end == bytes.len()
}

/// Parts back to back.
pub open spec fn back_to_back(parts: Seq<Seq<u8>>) -> Seq<u8>
    decreases parts.len(),
{
    if parts.len() == 0 {
        Seq::empty()
    } else {
        parts[0] + back_to_back(parts.drop_first())
    }
}

/// Whether the parts are varints.
pub open spec fn all_varints(parts: Seq<Seq<u8>>) -> bool {
    forall|i: int| 0 <= i < parts.len() ==> one_varint(#[trigger] parts[i])
}

proof fn lemma_varints_are_whole(parts: Seq<Seq<u8>>)
    requires
        all_varints(parts),
    ensures
        wire::varints_stop(back_to_back(parts), 0) is None,
    decreases parts.len(),
{
    if parts.len() > 0 {
        let rest = parts.drop_first();
        assert forall|i: int| 0 <= i < rest.len() implies one_varint(#[trigger] rest[i]) by {
            assert(rest[i] == parts[i + 1]);
        }
        lemma_varints_are_whole(rest);
        let first = parts[0];
        assert(one_varint(first));
        assert(wire::varints_stop(first, first.len() as int) is None);
        lemma_varints_join(first, back_to_back(rest), 0);
    }
}

proof fn lemma_varints_part(value: Seq<u8>) -> (parts: Seq<Seq<u8>>)
    requires
        wire::varints_stop(value, 0) is None,
    ensures
        all_varints(parts),
        back_to_back(parts) == value,
    decreases value.len(),
{
    if value.len() == 0 {
        assert(value =~= Seq::<u8>::empty());
        Seq::empty()
    } else {
        reader::lemma_varint(value, 0);
        let end = reader::varint_at(value, 0)->Ok_0.1;
        let first = value.take(end);
        let after = value.skip(end);
        assert(first + after == value);
        joined::lemma_varint_cut(first, after);
        lemma_varints_after(first, after, 0);
        let rest = lemma_varints_part(after);
        let parts = seq![first] + rest;
        assert(parts.drop_first() =~= rest);
        parts
    }
}

/// What packed values have to be: whole values back to back, the last ending where
/// the bytes do. So fixed values come in multiples of their width, and varints one
/// after the other with none cut off.
pub proof fn law_packed_values_are_whole(value: Seq<u8>, wire: WireType)
    ensures
        wire::packed_fault(value, wire) is None <==> match wire {
            WireType::I64 => value.len() % 8 == 0,
            WireType::I32 => value.len() % 4 == 0,
            _ => exists|parts: Seq<Seq<u8>>|
                all_varints(parts) && #[trigger] back_to_back(parts) == value,
        },
{
    if wire != WireType::I64 && wire != WireType::I32 {
        if wire::varints_stop(value, 0) is None {
            let parts = lemma_varints_part(value);
            assert(back_to_back(parts) == value);
        }
        if exists|parts: Seq<Seq<u8>>|
            all_varints(parts) && #[trigger] back_to_back(parts) == value {
            let parts = choose|parts: Seq<Seq<u8>>|
                all_varints(parts) && #[trigger] back_to_back(parts) == value;
            lemma_varints_are_whole(parts);
        }
    }
}

} // verus!
