//! What the bytes of the wire format say, by how they are written: a number as a
//! varint, a field as a tag and a value.
use crate::laws::joined;
use crate::laws::walk::sound;
use crate::reader;
use crate::reader::{Found, Head, Reason, Tag, WireType};
use vstd::prelude::*;

verus! {

/// A number as a varint: seven bits to a byte, the lowest first, the high bit set on
/// every byte but the last.
pub open spec fn varint_of(n: nat) -> Seq<u8>
    decreases n,
{
    if n < 128 {
        seq![n as u8]
    } else {
        seq![(n % 128 + 128) as u8] + varint_of(n / 128)
    }
}

/// The tag of the field `number`, with `wire` for its wire type.
pub open spec fn tag_of(number: nat, wire: nat) -> Seq<u8> {
    varint_of(8 * number + wire)
}

/// 128 to the power of `k`.
spec fn power(k: nat) -> nat
    decreases k,
{
    if k == 0 {
        1
    } else {
        128 * power((k - 1) as nat)
    }
}

proof fn lemma_varint_of(n: nat, k: nat)
    requires
        n < power(k),
        k > 0,
    ensures
        0 < varint_of(n).len() <= k,
        reader::continued(varint_of(n), 0) == varint_of(n).len() - 1,
        reader::base128(varint_of(n)) == n,
    decreases n,
{
    let bytes = varint_of(n);
    if n < 128 {
        assert(bytes.drop_first() == Seq::<u8>::empty());
        assert(reader::base128(bytes.drop_first()) == 0);
        assert(bytes[0] < 128);
    } else {
        assert(k > 1) by {
            assert(power(0) == 1);
            assert(power(1) == 128);
        }
        lemma_varint_of(n / 128, (k - 1) as nat);
        let first = seq![(n % 128 + 128) as u8];
        let rest = varint_of(n / 128);
        assert(bytes == first + rest);
        assert(bytes.drop_first() == rest);
        assert(bytes[0] >= 128);
        joined::lemma_continued_after(first, rest, 0);
        assert(first.len() + 0 == 1);
        assert(reader::continued(bytes, 1) == reader::continued(rest, 0));
    }
}

proof fn lemma_ten_bytes()
    ensures
        power(10) > u64::MAX,
{
    reveal_with_fuel(power, 11);
}

/// A number that is written as a varint reads back as that number, and no byte more,
/// whatever stands around it.
pub proof fn law_a_varint_reads_back(a: Seq<u8>, n: u64, b: Seq<u8>)
    ensures
        reader::varint_at(a + varint_of(n as nat) + b, a.len() as int) == Ok::<
            (u64, int),
            (Reason, int),
        >((n, (a.len() + varint_of(n as nat).len()) as int)),
{
    let bytes = varint_of(n as nat);
    lemma_ten_bytes();
    lemma_varint_of(n as nat, 10);
    assert(bytes.subrange(0, bytes.len() as int) == bytes);
    joined::lemma_varint_before(bytes, b, 0);
    joined::lemma_varint_after(a, bytes + b, 0);
    assert(a + varint_of(n as nat) + b == a + (bytes + b));
}

/// A byte below 128 is a varint by itself.
pub proof fn law_a_low_byte_is_a_varint(bytes: Seq<u8>, at: int)
    requires
        0 <= at < bytes.len(),
        bytes[at] < 128,
    ensures
        reader::varint_at(bytes, at) == Ok::<(u64, int), (Reason, int)>(
            (bytes[at] as u64, at + 1),
        ),
{
    let digits = bytes.subrange(at, at + 1);
    assert(digits.drop_first() == Seq::<u8>::empty());
    assert(reader::base128(digits.drop_first()) == 0);
    assert(digits[0] == bytes[at]);
}

/// A byte of 128 or more goes on: it gives seven bits, and what follows it the higher
/// ones, as long as the varint has no more than ten bytes and the number sixty-four
/// bits. Bytes that end there cut the varint off.
pub proof fn law_a_high_byte_goes_on(bytes: Seq<u8>, at: int)
    requires
        0 <= at < bytes.len(),
        bytes[at] >= 128,
    ensures
        match reader::varint_at(bytes, at + 1) {
            Ok((high, end)) => if end - at > 10 {
                reader::varint_at(bytes, at) == Err::<(u64, int), (Reason, int)>(
                    (Reason::VarintLong, at),
                )
            } else if 128 * high + (bytes[at] - 128) > u64::MAX {
                reader::varint_at(bytes, at) == Err::<(u64, int), (Reason, int)>(
                    (Reason::VarintLarge, at),
                )
            } else {
                reader::varint_at(bytes, at) == Ok::<(u64, int), (Reason, int)>(
                    ((128 * high + (bytes[at] - 128)) as u64, end),
                )
            },
            Err((Reason::VarintCut, _)) => reader::varint_at(bytes, at) == Err::<
                (u64, int),
                (Reason, int),
            >(
                (
                    if bytes.len() - at < 10 {
                        Reason::VarintCut
                    } else {
                        Reason::VarintLong
                    },
                    at,
                ),
            ),
            Err(_) => reader::varint_at(bytes, at) is Err,
        },
        at + 1 == bytes.len() ==> reader::varint_at(bytes, at) == Err::<(u64, int), (Reason, int)>(
            (Reason::VarintCut, at),
        ),
{
    reader::lemma_continued(bytes, at + 1);
    let more = reader::continued(bytes, at + 1);
    let last = at + 1 + more;
    assert(reader::continued(bytes, at) == more + 1);
    if last < bytes.len() {
        let digits = bytes.subrange(at, last + 1);
        assert(digits.drop_first() == bytes.subrange(at + 1, last + 1));
        assert(digits[0] == bytes[at]);
        assert(bytes[at] as nat % 128 == bytes[at] - 128);
    }
}

/// What a tag says: the three low bits of its number are the wire type, the others
/// the number of the field, which is from 1 to 2^29 - 1. Wire types six and seven
/// there are none of, and four ends a group.
pub proof fn law_a_tag_is_a_number_and_a_wire_type(
    bytes: Seq<u8>,
    at: int,
    number: nat,
    wire: nat,
    next: int,
)
    requires
        wire < 8,
        reader::varint_at(bytes, at) matches Ok((value, end)) && value == 8 * number + wire && end
            == next,
    ensures
        reader::head_at(bytes, at) == (if number == 0 || number >= 536_870_912 {
            Err::<(Head, int), (Reason, int)>((Reason::FieldNumber, at))
        } else if wire == 0 {
            Ok((Head::Field(Tag { number: number as u32, wire: WireType::Varint }), next))
        } else if wire == 1 {
            Ok((Head::Field(Tag { number: number as u32, wire: WireType::I64 }), next))
        } else if wire == 2 {
            Ok((Head::Field(Tag { number: number as u32, wire: WireType::Len }), next))
        } else if wire == 3 {
            Ok((Head::Field(Tag { number: number as u32, wire: WireType::Group }), next))
        } else if wire == 4 {
            Ok((Head::End(number as u32), next))
        } else if wire == 5 {
            Ok((Head::Field(Tag { number: number as u32, wire: WireType::I32 }), next))
        } else {
            Err((Reason::NoWireType, at))
        }),
{
}

/// What is no varint is no tag, for the same reason.
pub proof fn law_no_tag_without_its_varint(bytes: Seq<u8>, at: int, stop: (Reason, int))
    requires
        reader::varint_at(bytes, at) == Err::<(u64, int), (Reason, int)>(stop),
    ensures
        reader::head_at(bytes, at) == Err::<(Head, int), (Reason, int)>(stop),
{
}

/// The number of a wire type on the wire is the one that its tags have.
pub proof fn law_wire_types_have_their_numbers(wire: WireType)
    ensures
        reader::wire_number(wire) == (match wire {
            WireType::Varint => 0nat,
            WireType::I64 => 1,
            WireType::Len => 2,
            WireType::Group => 3,
            WireType::I32 => 5,
        }),
{
}

/// A value that is a varint is as long as the varint, fixed values are eight and four
/// bytes, and a value with its length before it is as long as that says, from the
/// byte after the length. Where so many bytes are not there, it is cut off.
pub proof fn law_values_are_as_long_as_they_say(bytes: Seq<u8>, at: int, number: u32)
    requires
        0 <= at <= bytes.len(),
    ensures
        reader::value_at(bytes, at, Tag { number, wire: WireType::Varint }) == (
        match reader::varint_at(bytes, at) {
            Ok((_, end)) => Ok::<(int, int), (Reason, int)>((at, end)),
            Err(stop) => Err(stop),
        }),
        reader::value_at(bytes, at, Tag { number, wire: WireType::I64 }) == (if at + 8
            <= bytes.len() {
            Ok::<(int, int), (Reason, int)>((at, at + 8))
        } else {
            Err((Reason::ValueCut, at))
        }),
        reader::value_at(bytes, at, Tag { number, wire: WireType::I32 }) == (if at + 4
            <= bytes.len() {
            Ok::<(int, int), (Reason, int)>((at, at + 4))
        } else {
            Err((Reason::ValueCut, at))
        }),
        reader::value_at(bytes, at, Tag { number, wire: WireType::Len }) == (
        match reader::varint_at(bytes, at) {
            Ok((length, start)) => if start + length <= bytes.len() {
                Ok::<(int, int), (Reason, int)>((start, start + length))
            } else {
                Err((Reason::ValueCut, start))
            },
            Err(stop) => Err(stop),
        }),
{
}

/// What one field at the beginning of bytes is: where its tag ends, and where its
/// value is.
spec fn first_field(bytes: Seq<u8>, tag: Tag, next: int, start: int, end: int) -> bool {
    &&& reader::tag_at(bytes, 0) == Ok::<Option<(Tag, int)>, (Reason, int)>(Some((tag, next)))
    &&& reader::value_at(bytes, next, tag) == Ok::<(int, int), (Reason, int)>((start, end))
}

proof fn lemma_tag_reads_back(number: u32, wire: nat, b: Seq<u8>)
    requires
        1 <= number < 536_870_912,
        wire < 8,
    ensures
        ({
            let next = tag_of(number as nat, wire).len() as int;
            reader::varint_at(tag_of(number as nat, wire) + b, 0) == Ok::<
                (u64, int),
                (Reason, int),
            >(((8 * number + wire) as u64, next)) && next > 0
        }),
{
    let n = (8 * number + wire) as u64;
    law_a_varint_reads_back(Seq::empty(), n, b);
    lemma_ten_bytes();
    lemma_varint_of(n as nat, 10);
    assert(Seq::<u8>::empty() + varint_of(n as nat) + b == tag_of(number as nat, wire) + b);
}

proof fn lemma_first_field(bytes: Seq<u8>, tag: Tag, next: int, start: int, end: int, rest: Seq<u8>)
    requires
        first_field(bytes, tag, next, start, end),
        end == bytes.len() - rest.len(),
        bytes.skip(end) == rest,
        end > 0,
    ensures
        sound(bytes) <==> sound(rest),
        reader::fields_from(bytes, 0).len() > 0,
        reader::fields_from(bytes, 0)[0] == (Found { from: 0, tag, start, end }),
{
    reader::lemma_head(bytes, 0);
    reader::lemma_value(bytes, next, tag);
    let before = bytes.take(end);
    assert(before + rest == bytes);
    joined::lemma_stop_after(before, rest, 0);
    assert(reader::stop_from(bytes, 0) == reader::stop_from(bytes, end));
    assert(reader::fields_from(bytes, 0) == seq![Found { from: 0, tag, start, end }]
        + reader::fields_from(bytes, end));
}

/// A value of any length, written as the tag of a field, its length and its bytes, is
/// one sound field of that value.
pub proof fn law_a_value_with_its_length_is_a_field(number: u32, value: Seq<u8>, rest: Seq<u8>)
    requires
        1 <= number < 536_870_912,
        value.len() <= u64::MAX,
    ensures
        ({
            let bytes = tag_of(number as nat, 2) + varint_of(value.len()) + value + rest;
            let start = (tag_of(number as nat, 2) + varint_of(value.len())).len() as int;
            &&& sound(bytes) <==> sound(rest)
            &&& reader::fields_from(bytes, 0).len() > 0
            &&& reader::fields_from(bytes, 0)[0] == (Found {
                from: 0,
                tag: Tag { number, wire: WireType::Len },
                start,
                end: (start + value.len()) as int,
            })
            &&& bytes.subrange(start, start + value.len()) == value
        }),
{
    let tag = tag_of(number as nat, 2);
    let length = varint_of(value.len());
    let bytes = tag + length + value + rest;
    let next = tag.len() as int;
    let start = (tag + length).len() as int;
    let end = (start + value.len()) as int;
    assert(bytes == tag + (length + value + rest));
    lemma_tag_reads_back(number, 2, length + value + rest);
    law_a_tag_is_a_number_and_a_wire_type(bytes, 0, number as nat, 2, next);
    law_a_varint_reads_back(tag, value.len() as u64, value + rest);
    assert(bytes == tag + length + (value + rest));
    assert(bytes.skip(end) == rest);
    assert(bytes.subrange(start, end) == value);
    lemma_first_field(
        bytes,
        Tag { number, wire: WireType::Len },
        next,
        start,
        end,
        rest,
    );
}

/// A number, written as the tag of a field and a varint, is one sound field.
pub proof fn law_a_number_is_a_field(number: u32, n: u64, rest: Seq<u8>)
    requires
        1 <= number < 536_870_912,
    ensures
        ({
            let bytes = tag_of(number as nat, 0) + varint_of(n as nat) + rest;
            let start = tag_of(number as nat, 0).len() as int;
            &&& sound(bytes) <==> sound(rest)
            &&& reader::fields_from(bytes, 0).len() > 0
            &&& reader::fields_from(bytes, 0)[0] == (Found {
                from: 0,
                tag: Tag { number, wire: WireType::Varint },
                start,
                end: (start + varint_of(n as nat).len()) as int,
            })
        }),
{
    let tag = tag_of(number as nat, 0);
    let value = varint_of(n as nat);
    let bytes = tag + value + rest;
    let start = tag.len() as int;
    let end = (start + value.len()) as int;
    assert(bytes == tag + (value + rest));
    lemma_tag_reads_back(number, 0, value + rest);
    law_a_tag_is_a_number_and_a_wire_type(bytes, 0, number as nat, 0, start);
    law_a_varint_reads_back(tag, n, rest);
    assert(bytes.skip(end) == rest);
    lemma_first_field(bytes, Tag { number, wire: WireType::Varint }, start, start, end, rest);
}

/// Eight bytes after a tag of wire type one, and four after one of wire type five, are
/// one sound field.
pub proof fn law_fixed_bytes_are_a_field(number: u32, value: Seq<u8>, rest: Seq<u8>)
    requires
        1 <= number < 536_870_912,
        value.len() == 8 || value.len() == 4,
    ensures
        ({
            let wire = if value.len() == 8 {
                1nat
            } else {
                5
            };
            let bytes = tag_of(number as nat, wire) + value + rest;
            let start = tag_of(number as nat, wire).len() as int;
            &&& sound(bytes) <==> sound(rest)
            &&& reader::fields_from(bytes, 0).len() > 0
            &&& reader::fields_from(bytes, 0)[0] == (Found {
                from: 0,
                tag: Tag {
                    number,
                    wire: if value.len() == 8 {
                        WireType::I64
                    } else {
                        WireType::I32
                    },
                },
                start,
                end: (start + value.len()) as int,
            })
        }),
{
    let (wire, kind) = if value.len() == 8 {
        (1nat, WireType::I64)
    } else {
        (5nat, WireType::I32)
    };
    let tag = tag_of(number as nat, wire);
    let bytes = tag + value + rest;
    let start = tag.len() as int;
    let end = (start + value.len()) as int;
    assert(bytes == tag + (value + rest));
    lemma_tag_reads_back(number, wire, value + rest);
    law_a_tag_is_a_number_and_a_wire_type(bytes, 0, number as nat, wire, start);
    assert(bytes.skip(end) == rest);
    lemma_first_field(bytes, Tag { number, wire: kind }, start, start, end, rest);
}

/// What stops the reading of bytes after sound ones is what stops it by themselves,
/// so many bytes further on; and no bytes are sound.
pub proof fn law_a_stop_is_told_where_it_is(a: Seq<u8>, b: Seq<u8>)
    requires
        sound(a),
    ensures
        reader::stop_from(a + b, 0) == (match reader::stop_from(b, 0) {
            Some((reason, at)) => Some((reason, at + a.len())),
            None => None,
        }),
        sound(Seq::empty()),
{
    joined::lemma_stop_before(a, b, 0);
    joined::lemma_stop_after(a, b, 0);
}

/// What stops the reading of bytes at their first field: a tag that is none, a tag
/// that ends a group where none is open, or a value that is not all there.
pub proof fn law_bytes_stop_at_their_first_field(bytes: Seq<u8>)
    requires
        bytes.len() > 0,
    ensures
        match reader::head_at(bytes, 0) {
            Err(stop) => reader::stop_from(bytes, 0) == Some(stop),
            Ok((Head::End(_), _)) => reader::stop_from(bytes, 0) == Some((Reason::GroupEnd, 0int)),
            Ok((Head::Field(tag), next)) => match reader::value_at(bytes, next, tag) {
                Err(stop) => reader::stop_from(bytes, 0) == Some(stop),
                Ok((_, end)) => sound(bytes) <==> sound(bytes.skip(end)),
            },
        },
{
    reader::lemma_head(bytes, 0);
    if let Ok((Head::Field(tag), next)) = reader::head_at(bytes, 0) {
        reader::lemma_value(bytes, next, tag);
        if let Ok((start, end)) = reader::value_at(bytes, next, tag) {
            lemma_first_field(bytes, tag, next, start, end, bytes.skip(end));
        }
    }
}

/// Bytes that end where a varint should begin cut it off.
pub proof fn law_no_bytes_are_no_varint(bytes: Seq<u8>)
    ensures
        reader::varint_at(bytes, bytes.len() as int) == Err::<(u64, int), (Reason, int)>(
            (Reason::VarintCut, bytes.len() as int),
        ),
{
}

/// The next field is where a tag says so: past the last byte there is none, and a tag
/// that ends a group is no field.
pub proof fn law_where_the_next_field_is(bytes: Seq<u8>, at: int)
    ensures
        reader::tag_at(bytes, at) == (if at >= bytes.len() {
            Ok::<Option<(Tag, int)>, (Reason, int)>(None)
        } else {
            match reader::head_at(bytes, at) {
                Ok((Head::Field(tag), next)) => Ok(Some((tag, next))),
                Ok((Head::End(_), _)) => Err((Reason::GroupEnd, at)),
                Err(stop) => Err(stop),
            }
        }),
{
}

/// What stops an inner group stops those around it.
proof fn lemma_close_stops(bytes: Seq<u8>, at: int, outer: Seq<u32>, inner: Seq<u32>)
    requires
        0 <= at <= bytes.len(),
        reader::close_at(bytes, at, inner) is Err,
    ensures
        reader::close_at(bytes, at, outer + inner) == reader::close_at(bytes, at, inner),
    decreases bytes.len() - at,
{
    if inner.len() > 0 && at < bytes.len() {
        reader::lemma_head(bytes, at);
        assert((outer + inner).last() == inner.last());
        match reader::head_at(bytes, at) {
            Err(_) => {},
            Ok((Head::End(number), next)) => {
                assert((outer + inner).drop_last() == outer + inner.drop_last());
                if number == inner.last() {
                    lemma_close_stops(bytes, next, outer, inner.drop_last());
                }
            },
            Ok((Head::Field(tag), next)) => {
                if tag.wire == WireType::Group {
                    assert((outer + inner).push(tag.number) == outer + inner.push(tag.number));
                    lemma_close_stops(bytes, next, outer, inner.push(tag.number));
                } else {
                    reader::lemma_plain(bytes, next, tag.wire);
                    if let Ok((_, end)) = reader::plain_at(bytes, next, tag.wire) {
                        lemma_close_stops(bytes, end, outer, inner);
                    }
                }
            },
        }
    }
}

/// A group goes by its fields: past each of them it goes on, the tag of its number that
/// ends a group ends it, and it stops where a field of it does, at a tag that ends
/// another group, or where the bytes end.
pub proof fn law_a_group_goes_by_its_fields(bytes: Seq<u8>, at: int, number: u32)
    requires
        0 <= at <= bytes.len(),
    ensures
        ({
            let group = Tag { number, wire: WireType::Group };
            let read = reader::value_at(bytes, at, group);
            if at == bytes.len() {
                read == Err::<(int, int), (Reason, int)>((Reason::GroupOpen, at))
            } else {
                match reader::head_at(bytes, at) {
                    Err(stop) => read == Err::<(int, int), (Reason, int)>(stop),
                    Ok((Head::End(other), next)) => read == (if other == number {
                        Ok::<(int, int), (Reason, int)>((at, next))
                    } else {
                        Err((Reason::GroupEnd, at))
                    }),
                    Ok((Head::Field(tag), next)) => match reader::value_at(bytes, next, tag) {
                        Err(stop) => read == Err::<(int, int), (Reason, int)>(stop),
                        Ok((_, over)) => read == (match reader::value_at(bytes, over, group) {
                            Ok((_, end)) => Ok::<(int, int), (Reason, int)>((at, end)),
                            Err(stop) => Err(stop),
                        }),
                    },
                }
            }
        }),
{
    let open = seq![number];
    assert(open.drop_last() == Seq::<u32>::empty());
    assert(open.last() == number);
    if at < bytes.len() {
        reader::lemma_head(bytes, at);
        match reader::head_at(bytes, at) {
            Err(_) => {},
            Ok((Head::End(_), next)) => {
                assert(reader::close_at(bytes, next, Seq::empty()) == Ok::<int, (Reason, int)>(
                    next,
                ));
            },
            Ok((Head::Field(tag), next)) => {
                if tag.wire == WireType::Group {
                    let inner = seq![tag.number];
                    assert(open.push(tag.number) == open + inner);
                    match reader::close_at(bytes, next, inner) {
                        Ok(_) => {
                            crate::laws::format::lemma_close_inner(bytes, next, open, inner);
                        },
                        Err(_) => {
                            lemma_close_stops(bytes, next, open, inner);
                        },
                    }
                }
            },
        }
    }
}

proof fn lemma_fields_inside(a: Seq<u8>, fields: Seq<u8>, b: Seq<u8>, at: int)
    requires
        0 <= at <= fields.len(),
        reader::stop_from(fields, at) is None,
    ensures
        crate::laws::format::fields_up_to(
            a + (fields + b),
            a.len() + at,
            (a.len() + fields.len()) as int,
        ),
    decreases fields.len() - at,
{
    if at < fields.len() {
        reader::lemma_head(fields, at);
        if let Ok(Some((tag, next))) = reader::tag_at(fields, at) {
            reader::lemma_value(fields, next, tag);
            joined::lemma_head_before(fields, b, at);
            joined::lemma_head_after(a, fields + b, at);
            joined::lemma_value_before(fields, b, next, tag);
            joined::lemma_value_after(a, fields + b, next, tag);
            if let Ok((_, end)) = reader::value_at(fields, next, tag) {
                lemma_fields_inside(a, fields, b, end);
            }
        }
    }
}

/// Sound fields between the two tags of a group are one sound field.
pub proof fn law_fields_between_the_tags_of_a_group_are_a_field(
    number: u32,
    fields: Seq<u8>,
    rest: Seq<u8>,
)
    requires
        1 <= number < 536_870_912,
        sound(fields),
    ensures
        ({
            let bytes = tag_of(number as nat, 3) + fields + tag_of(number as nat, 4) + rest;
            let start = tag_of(number as nat, 3).len() as int;
            &&& sound(bytes) <==> sound(rest)
            &&& reader::fields_from(bytes, 0).len() > 0
            &&& reader::fields_from(bytes, 0)[0] == (Found {
                from: 0,
                tag: Tag { number, wire: WireType::Group },
                start,
                end: (start + fields.len() + tag_of(number as nat, 4).len()) as int,
            })
        }),
{
    let opening = tag_of(number as nat, 3);
    let closing = tag_of(number as nat, 4);
    let bytes = opening + fields + closing + rest;
    let start = opening.len() as int;
    let last = (start + fields.len()) as int;
    let end = (last + closing.len()) as int;
    lemma_tag_reads_back(number, 3, fields + closing + rest);
    assert(bytes == opening + (fields + closing + rest));
    law_a_tag_is_a_number_and_a_wire_type(bytes, 0, number as nat, 3, start);
    lemma_tag_reads_back(number, 4, rest);
    joined::lemma_varint_after(opening + fields, closing + rest, 0);
    assert(bytes == opening + fields + (closing + rest));
    law_a_tag_is_a_number_and_a_wire_type(bytes, last, number as nat, 4, end);
    assert(bytes == opening + (fields + (closing + rest)));
    lemma_fields_inside(opening, fields, closing + rest, 0);
    assert(crate::laws::format::is_group(bytes, start, number, last, end));
    crate::laws::format::law_a_group_is_fields_and_its_end(bytes, start, number, end);
    assert(bytes.skip(end) == rest);
    lemma_first_field(bytes, Tag { number, wire: WireType::Group }, start, start, end, rest);
}

/// What stops reading, in words.
pub proof fn law_the_words_of_a_reason(reason: Reason)
    ensures
        reader::reason_text(reason) == (match reason {
            Reason::VarintCut => "a varint cut off"@,
            Reason::VarintLong => "a varint longer than ten bytes"@,
            Reason::VarintLarge => "a varint of more than 64 bits"@,
            Reason::FieldNumber => "a field number outside the format's range"@,
            Reason::NoWireType => "a wire type the format does not have"@,
            Reason::ValueCut => "a value cut off"@,
            Reason::GroupOpen => "a group never closed"@,
            Reason::GroupEnd => "the end of a group that is not open"@,
        }),
{
}

} // verus!
