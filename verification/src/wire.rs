//! The wire format checked against a schema: the wire type that the schema
//! expects of a field, UTF-8 in a string, an embedded message walked as its
//! type. Unknown fields are left alone, as every decoder must; a known field
//! whose wire type is not the schema's is the departure.
use crate::proto;
use crate::proto::{Field, FieldModel, File, Kind, KindModel, Message, MessageModel, MessagesModel};
use crate::reader;
use crate::reader::{Reader, Reason, Stop, Tag, WireType};
use crate::text;
use std::collections::HashMap;
use vstd::prelude::*;
use vstd::string::*;

verus! {

broadcast use vstd::std_specs::hash::group_hash_axioms;

/// Where bytes stop being a message, and in what way, as it is found.
pub struct Misfit {
    /// What is wrong.
    pub what: String,
    /// Whether it is among the values of a packed field.
    pub packed: bool,
    /// The path to the field, or to the message it is in where it has no name.
    pub path: String,
}

impl View for Misfit {
    type V = Departure;

    open spec fn view(&self) -> Departure {
        Departure { what: self.what@, packed: self.packed, path: self.path@ }
    }
}

/// Where bytes stop being a message, and in what way.
pub struct Departure {
    /// What is wrong.
    pub what: Seq<char>,
    /// Whether it is among the values of a packed field.
    pub packed: bool,
    /// The path to the field, or to the message it is in where it has no name.
    pub path: Seq<char>,
}

impl Departure {
    /// The departure in words.
    pub open spec fn text(self) -> Seq<char> {
        if self.packed {
            self.what + " in packed "@ + self.path
        } else {
            self.what + " at "@ + self.path
        }
    }
}

/// A stop in words, with the byte it was found at.
pub open spec fn stop_text(stop: (Reason, int)) -> Seq<char> {
    reader::reason_text(stop.0) + " (byte "@ + text::decimal(stop.1 as nat) + ")"@
}

/// The wire type a field of `kind` travels as.
pub open spec fn wire_of(kind: KindModel) -> WireType {
    match kind {
        KindModel::Varint => WireType::Varint,
        KindModel::Fixed64 => WireType::I64,
        KindModel::Fixed32 => WireType::I32,
        _ => WireType::Len,
    }
}

/// Why the bytes from `at` on are no varints back to back, if they are none.
pub open spec fn varints_stop(bytes: Seq<u8>, at: int) -> Option<(Reason, int)>
    decreases bytes.len() - at,
    when 0 <= at <= bytes.len()
{
    if at >= bytes.len() {
        None
    } else {
        proof {
            reader::lemma_varint(bytes, at);
        }
        match reader::varint_at(bytes, at) {
            Err(stop) => Some(stop),
            Ok((_, end)) => varints_stop(bytes, end),
        }
    }
}

/// Why so many bytes are no values of `width` bytes, if they are none.
pub open spec fn widths_fault(length: nat, width: nat) -> Option<Seq<char>> {
    if length % width == 0 {
        None
    } else {
        Some(text::decimal(length) + " bytes of "@ + text::decimal(width) + "-byte values"@)
    }
}

/// Why `value` is no packed values of `wire`, back to back, the last ending
/// where it does, if it is none.
pub open spec fn packed_fault(value: Seq<u8>, wire: WireType) -> Option<Seq<char>> {
    match wire {
        WireType::I64 => widths_fault(value.len(), 8),
        WireType::I32 => widths_fault(value.len(), 4),
        _ => match varints_stop(value, 0) {
            Some(stop) => Some(stop_text(stop)),
            None => None,
        },
    }
}

/// An entry of a map: its key is field 1, its value field 2.
pub open spec fn entry_of(key: KindModel, value: KindModel) -> MessageModel {
    MessageModel::empty().insert(
        1,
        FieldModel { name: "key"@, kind: key, repeated: false },
    ).insert(2, FieldModel { name: "value"@, kind: value, repeated: false })
}

/// Where the bytes from `at` on stop being fields of `message`, if they do.
/// `messages` are the messages of the file by full name; `path` is where the
/// message is.
pub open spec fn departure_from(
    bytes: Seq<u8>,
    at: int,
    message: MessageModel,
    messages: MessagesModel,
    path: Seq<char>,
) -> Option<Departure>
    decreases bytes.len(), 0nat, bytes.len() - at,
    when 0 <= at <= bytes.len()
{
    match reader::tag_at(bytes, at) {
        Err(stop) => Some(Departure { what: stop_text(stop), packed: false, path }),
        Ok(None) => None,
        Ok(Some((tag, next))) => {
            proof {
                reader::lemma_head(bytes, at);
                reader::lemma_value(bytes, next, tag);
            }
            match field_departure(bytes, next, tag, message, messages, path) {
                Some(departure) => Some(departure),
                None => match reader::value_at(bytes, next, tag) {
                    Ok((_, end)) => departure_from(bytes, end, message, messages, path),
                    Err(_) => None,
                },
            }
        },
    }
}

/// Where the field whose value begins at `at` stops being what `message` says of
/// it, if it does. A field that the message does not know has only to be there.
/// One that it knows is of the wire type of its kind, or, where it is a repeated
/// scalar, its values are packed into one length-delimited value; that is judged
/// before the value is looked at.
pub open spec fn field_departure(
    bytes: Seq<u8>,
    at: int,
    tag: Tag,
    message: MessageModel,
    messages: MessagesModel,
    path: Seq<char>,
) -> Option<Departure>
    decreases bytes.len(), 0nat, bytes.len() - at,
    when 0 < at <= bytes.len()
{
    let field = message[tag.number];
    let field_path = proto::dotted(path, field.name);
    let wire = wire_of(field.kind);
    let packed = tag.wire == WireType::Len && wire != WireType::Len && field.repeated;
    let known = message.contains_key(tag.number);
    proof {
        reader::lemma_value(bytes, at, tag);
    }
    if known && tag.wire != wire && !packed {
        Some(
            Departure {
                what: "wire type "@ + text::decimal(reader::wire_number(tag.wire)) + " where "@
                    + field.name + " is "@ + text::decimal(reader::wire_number(wire)),
                packed: false,
                path: field_path,
            },
        )
    } else {
        match reader::value_at(bytes, at, tag) {
            Err(stop) => if known {
                Some(Departure { what: stop_text(stop), packed: false, path: field_path })
            } else {
                Some(
                    Departure {
                        what: stop_text(stop) + " in unknown field "@ + text::decimal(
                            tag.number as nat,
                        ),
                        packed: false,
                        path,
                    },
                )
            },
            Ok((start, end)) => if !known {
                None
            } else if packed {
                match packed_fault(bytes.subrange(start, end), wire) {
                    Some(what) => Some(Departure { what, packed: true, path: field_path }),
                    None => None,
                }
            } else {
                value_departure(bytes.subrange(start, end), field.kind, messages, field_path)
            },
        }
    }
}

/// Where `value` stops being of `kind`, if it does: a string has to be UTF-8, an
/// embedded message fields of its type, or any fields where the file does not
/// define it, and a map entry a message of a key and a value.
pub open spec fn value_departure(
    value: Seq<u8>,
    kind: KindModel,
    messages: MessagesModel,
    path: Seq<char>,
) -> Option<Departure>
    decreases value.len(), 1nat, 0int,
{
    match kind {
        KindModel::Text => if vstd::utf8::valid_utf8(value) {
            None
        } else {
            Some(Departure { what: "a string that is not UTF-8"@, packed: false, path })
        },
        KindModel::Message(name) => if messages.contains_key(name) {
            departure_from(value, 0, messages[name], messages, path)
        } else {
            match reader::stop_from(value, 0) {
                Some(stop) => Some(Departure { what: stop_text(stop), packed: false, path }),
                None => None,
            }
        },
        KindModel::MapOf(key, value_kind) => departure_from(
            value,
            0,
            entry_of(*key, *value_kind),
            messages,
            path,
        ),
        _ => None,
    }
}

/// Where `bytes` stop being `message`, if they do.
pub open spec fn departure(
    bytes: Seq<u8>,
    message: MessageModel,
    messages: MessagesModel,
    path: Seq<char>,
) -> Option<Departure> {
    departure_from(bytes, 0, message, messages, path)
}

/// A walk that comes to a field: the departure is the field's, if it has one, or
/// one after it.
pub proof fn lemma_departure_from(
    bytes: Seq<u8>,
    at: int,
    message: MessageModel,
    messages: MessagesModel,
    path: Seq<char>,
)
    requires
        0 <= at <= bytes.len(),
        reader::tag_at(bytes, at) matches Ok(Some(_)),
    ensures
        reader::tag_at(bytes, at) matches Ok(Some((tag, next))) && at < next <= bytes.len() && (
        match field_departure(bytes, next, tag, message, messages, path) {
            Some(departure) => departure_from(bytes, at, message, messages, path) == Some(
                departure,
            ),
            None => {
                &&& reader::value_at(bytes, next, tag) matches Ok((start, end))
                &&& next <= start <= end <= bytes.len()
                &&& departure_from(bytes, at, message, messages, path) == departure_from(
                    bytes,
                    end,
                    message,
                    messages,
                    path,
                )
            },
        }),
{
    reader::lemma_head(bytes, at);
    if let Ok(Some((tag, next))) = reader::tag_at(bytes, at) {
        reader::lemma_value(bytes, next, tag);
    }
}

/// `str::from_utf8`: it succeeds on the bytes that are valid UTF-8, and on no
/// others.
#[verifier::external_body]
fn is_utf8(value: &[u8]) -> (answer: bool)
    ensures
        answer == vstd::utf8::valid_utf8(value@),
{
    std::str::from_utf8(value).is_ok()
}

/// The wire type a field of `kind` travels as.
fn expected(kind: &Kind) -> (wire: WireType)
    ensures
        wire == wire_of(kind@),
{
    match kind {
        Kind::Varint => WireType::Varint,
        Kind::Fixed64 => WireType::I64,
        Kind::Fixed32 => WireType::I32,
        _ => WireType::Len,
    }
}

/// A stop in the walk, with the byte it was found at.
fn placed(stop: Stop) -> (out: String)
    ensures
        out@ == stop_text(stop@),
{
    let mut out: String = stop.reason.text().to_string();
    out.append(" (byte ");
    out.append(text::in_decimal(stop.at as u64).as_str());
    out.append(")");
    out
}

/// Whether `length` bytes are values of `width` bytes.
fn widths(length: usize, width: usize) -> (out: Result<(), String>)
    requires
        width > 0,
    ensures
        match out {
            Ok(()) => widths_fault(length as nat, width as nat) is None,
            Err(why) => widths_fault(length as nat, width as nat) == Some(why@),
        },
{
    if length % width == 0 {
        Ok(())
    } else {
        let mut why: String = text::in_decimal(length as u64);
        why.append(" bytes of ");
        why.append(text::in_decimal(width as u64).as_str());
        why.append("-byte values");
        Err(why)
    }
}

/// Where `bytes` stop being varints back to back, if they do.
fn varints(bytes: &[u8]) -> (out: Option<Stop>)
    ensures
        match out {
            Some(stop) => varints_stop(bytes@, 0) == Some(stop@),
            None => varints_stop(bytes@, 0) is None,
        },
{
    let mut at: usize = 0;
    while at < bytes.len()
        invariant
            at <= bytes@.len(),
            varints_stop(bytes@, 0) == varints_stop(bytes@, at as int),
        decreases bytes@.len() - at,
    {
        match reader::varint(bytes, at) {
            Ok((_, end)) => {
                at = end;
            },
            Err(stop) => {
                return Some(stop);
            },
        }
    }
    None
}

/// A packed repeated scalar: values of `wire` back to back, the last ending
/// exactly where `value` does.
fn packed(value: &[u8], wire: WireType) -> (out: Result<(), String>)
    ensures
        match out {
            Ok(()) => packed_fault(value@, wire) is None,
            Err(why) => packed_fault(value@, wire) == Some(why@),
        },
{
    match wire {
        WireType::I64 => widths(value.len(), 8),
        WireType::I32 => widths(value.len(), 4),
        _ => match varints(value) {
            Some(stop) => Err(placed(stop)),
            None => Ok(()),
        },
    }
}

/// Walk `bytes` as fields, and say where they stop being any.
fn stopped(bytes: &[u8]) -> (out: Option<Stop>)
    ensures
        match out {
            Some(stop) => reader::stop_from(bytes@, 0) == Some(stop@),
            None => reader::stop_from(bytes@, 0) is None,
        },
{
    let mut reader = Reader::new(bytes);
    loop
        invariant
            reader.wf(),
            reader.bytes() == bytes@,
            reader::stop_from(bytes@, 0) == reader::stop_from(bytes@, reader.at()),
        decreases bytes@.len() - reader.at(),
    {
        match reader.tag() {
            Err(stop) => {
                return Some(stop);
            },
            Ok(None) => {
                return None;
            },
            Ok(Some(tag)) => {
                if let Err(stop) = reader.value(tag) {
                    return Some(stop);
                }
            },
        }
    }
}

/// Walk `bytes` as fields with no schema: every tag sound, every value as
/// long as its wire type says.
///
/// # Errors
/// The first departure, with the byte it was found at.
pub fn walk_bare(bytes: &[u8]) -> (out: Result<(), String>)
    ensures
        match out {
            Ok(()) => reader::stop_from(bytes@, 0) is None,
            Err(why) => reader::stop_from(bytes@, 0) matches Some(stop) && why@ == stop_text(stop),
        },
{
    match stopped(bytes) {
        Some(stop) => Err(placed(stop)),
        None => Ok(()),
    }
}

/// `what` is wrong at `path`.
fn misfit(what: &str, path: &str) -> (out: Misfit)
    ensures
        out@ == (Departure { what: what@, packed: false, path: path@ }),
{
    Misfit { what: what.to_string(), packed: false, path: path.to_string() }
}

impl Misfit {
    /// The departure in words.
    pub fn text(&self) -> (out: String)
        ensures
            out@ == self@.text(),
    {
        let mut out: String = self.what.clone();
        if self.packed {
            out.append(" in packed ");
        } else {
            out.append(" at ");
        }
        out.append(self.path.as_str());
        out
    }
}

/// The first place where `bytes` stop being a `message` of `file`, if they do.
pub fn first_departure(bytes: &[u8], message: &Message, file: &File, path: &str) -> (out: Option<
    Misfit,
>)
    ensures
        match out {
            Some(found) => departure(bytes@, message@, file.messages@, path@) == Some(found@),
            None => departure(bytes@, message@, file.messages@, path@) is None,
        },
    decreases bytes@.len(), 0nat,
{
    let mut reader = Reader::new(bytes);
    loop
        invariant
            reader.wf(),
            reader.bytes() == bytes@,
            departure(bytes@, message@, file.messages@, path@) == departure_from(
                bytes@,
                reader.at(),
                message@,
                file.messages@,
                path@,
            ),
        decreases bytes@.len() - reader.at(),
    {
        let ghost from = reader.at();
        let tag = match reader.tag() {
            Err(stop) => {
                return Some(misfit(placed(stop).as_str(), path));
            },
            Ok(None) => {
                return None;
            },
            Ok(Some(tag)) => tag,
        };
        proof {
            lemma_departure_from(bytes@, from, message@, file.messages@, path@);
        }
        let declared = match message.fields.get(&tag.number) {
            Some(declared) => declared,
            None => {
                match reader.value(tag) {
                    Err(stop) => {
                        let mut what: String = placed(stop);
                        what.append(" in unknown field ");
                        what.append(text::in_decimal(tag.number as u64).as_str());
                        return Some(misfit(what.as_str(), path));
                    },
                    Ok(_) => {
                        continue ;
                    },
                }
            },
        };
        let at = proto::within(path, declared.name.as_str());
        let expected = expected(&declared.kind);
        let packed_scalar = tag.wire == WireType::Len && expected != WireType::Len
            && declared.repeated;
        // Judged at the tag, before the value is read: a varint read as a
        // length runs past the end, and the departure is the field, not the
        // end of the message.
        if tag.wire != expected && !packed_scalar {
            let mut what: String = "wire type ".to_string();
            what.append(text::in_decimal(tag.wire.number() as u64).as_str());
            what.append(" where ");
            what.append(declared.name.as_str());
            what.append(" is ");
            what.append(text::in_decimal(expected.number() as u64).as_str());
            return Some(misfit(what.as_str(), at.as_str()));
        }
        let (start, end) = match reader.value(tag) {
            Err(stop) => {
                return Some(misfit(placed(stop).as_str(), at.as_str()));
            },
            Ok(range) => range,
        };
        let value = vstd::slice::slice_subrange(bytes, start, end);
        if packed_scalar {
            if let Err(what) = packed(value, expected) {
                return Some(Misfit { what, packed: true, path: at });
            }
        } else if let Some(found) = misfit_of_value(value, &declared.kind, file, at.as_str()) {
            return Some(found);
        }
    }
}

/// Where one field's value stops being what the schema declares it to be, if it
/// does.
fn misfit_of_value(value: &[u8], kind: &Kind, file: &File, at: &str) -> (out: Option<Misfit>)
    ensures
        match out {
            Some(found) => value_departure(value@, kind@, file.messages@, at@) == Some(found@),
            None => value_departure(value@, kind@, file.messages@, at@) is None,
        },
    decreases value@.len(), 1nat,
{
    match kind {
        Kind::Varint | Kind::Fixed64 | Kind::Fixed32 | Kind::Bytes | Kind::Opaque => None,
        Kind::Text => {
            if is_utf8(value) {
                None
            } else {
                Some(misfit("a string that is not UTF-8", at))
            }
        },
        Kind::Message(name) => match file.messages.get(name.as_str()) {
            Some(inner) => first_departure(value, inner, file, at),
            None => match stopped(value) {
                None => None,
                Some(stop) => Some(misfit(placed(stop).as_str(), at)),
            },
        },
        Kind::MapOf(key, value_kind) => {
            let mut fields: HashMap<u32, Field> = HashMap::new();
            fields.insert(
                1,
                Field { name: "key".to_string(), kind: (**key).clone(), repeated: false },
            );
            fields.insert(
                2,
                Field { name: "value".to_string(), kind: (**value_kind).clone(), repeated: false },
            );
            let entry = Message { fields };
            assert(entry@ =~= entry_of(key@, value_kind@));
            first_departure(value, &entry, file, at)
        },
    }
}

/// Walk `bytes` as a `message` of `file`, saying where it stops being one.
///
/// # Errors
/// The first departure, with the path to it.
pub fn walk(bytes: &[u8], message: &Message, file: &File, path: &str) -> (out: Result<(), String>)
    ensures
        match out {
            Ok(()) => departure(bytes@, message@, file.messages@, path@) is None,
            Err(why) => departure(bytes@, message@, file.messages@, path@) matches Some(found)
                && why@ == found.text(),
        },
{
    match first_departure(bytes, message, file, path) {
        None => Ok(()),
        Some(found) => Err(found.text()),
    }
}

/// Hold one field's value to what the schema declares it to be.
///
/// # Errors
/// The first departure, with the path to it.
pub fn check(value: &[u8], kind: &Kind, file: &File, at: &str) -> (out: Result<(), String>)
    ensures
        match out {
            Ok(()) => value_departure(value@, kind@, file.messages@, at@) is None,
            Err(why) => value_departure(value@, kind@, file.messages@, at@) matches Some(found)
                && why@ == found.text(),
        },
{
    match misfit_of_value(value, kind, file, at) {
        None => Ok(()),
        Some(found) => Err(found.text()),
    }
}

} // verus!
