//! What holds of the wire format.
use crate::laws::walk::sound;
use crate::reader;
use crate::reader::{Found, Head, Reason, Tag, WireType};
use vstd::prelude::*;

verus! {

/// Whether fields stand back to back from `at` to the end of bytes so many.
pub open spec fn back_to_back(fields: Seq<Found>, at: int, length: int) -> bool {
    if fields.len() == 0 {
        at == length
    } else {
        &&& fields[0].from == at
        &&& forall|i: int|
            0 <= i < fields.len() ==> (#[trigger] fields[i]).from < fields[i].start
                && fields[i].start <= fields[i].end
        &&& forall|i: int, j: int|
            0 <= i < j < fields.len() && j == i + 1 ==> (#[trigger] fields[j]).from == (
            #[trigger] fields[i]).end
        &&& fields.last().end == length
    }
}

/// Sound wire format is fields back to back, the first at the first byte, and no
/// byte over.
pub proof fn law_no_byte_is_over(bytes: Seq<u8>)
    requires
        sound(bytes),
    ensures
        back_to_back(reader::fields_from(bytes, 0), 0, bytes.len() as int),
{
    lemma_no_byte_is_over(bytes, 0);
}

proof fn lemma_no_byte_is_over(bytes: Seq<u8>, at: int)
    requires
        0 <= at <= bytes.len(),
        reader::stop_from(bytes, at) is None,
    ensures
        back_to_back(reader::fields_from(bytes, at), at, bytes.len() as int),
    decreases bytes.len() - at,
{
    reader::lemma_head(bytes, at);
    if let Ok(Some((tag, next))) = reader::tag_at(bytes, at) {
        reader::lemma_value(bytes, next, tag);
        if let Ok((start, end)) = reader::value_at(bytes, next, tag) {
            let fields = reader::fields_from(bytes, at);
            let rest = reader::fields_from(bytes, end);
            lemma_no_byte_is_over(bytes, end);
            assert(fields == seq![Found { from: at, tag, start, end }] + rest);
            assert(fields.drop_first() == rest);
            assert(forall|i: int|
                0 <= i < rest.len() ==> #[trigger] rest[i] == fields.drop_first()[i]);
        }
    }
}

/// Groups that are open further out make no difference to how an inner one ends.
pub proof fn lemma_close_inner(bytes: Seq<u8>, at: int, outer: Seq<u32>, inner: Seq<u32>)
    requires
        0 <= at <= bytes.len(),
        reader::close_at(bytes, at, inner) is Ok,
    ensures
        reader::close_at(bytes, at, outer + inner) == reader::close_at(
            bytes,
            reader::close_at(bytes, at, inner)->Ok_0,
            outer,
        ),
    decreases bytes.len() - at,
{
    if inner.len() == 0 {
        assert(outer + inner == outer);
    } else {
        reader::lemma_head(bytes, at);
        match reader::head_at(bytes, at) {
            Err(_) => {},
            Ok((Head::End(_), next)) => {
                assert((outer + inner).drop_last() == outer + inner.drop_last());
                assert((outer + inner).last() == inner.last());
                lemma_close_inner(bytes, next, outer, inner.drop_last());
            },
            Ok((Head::Field(tag), next)) => {
                if tag.wire == WireType::Group {
                    assert((outer + inner).push(tag.number) == outer + inner.push(tag.number));
                    lemma_close_inner(bytes, next, outer, inner.push(tag.number));
                } else {
                    reader::lemma_plain(bytes, next, tag.wire);
                    if let Ok((_, end)) = reader::plain_at(bytes, next, tag.wire) {
                        lemma_close_inner(bytes, end, outer, inner);
                    }
                }
            },
        }
    }
}

/// The bytes of a group from `at` on, up to the tag at `last` that ends it, are
/// fields.
pub open spec fn fields_up_to(bytes: Seq<u8>, at: int, last: int) -> bool
    decreases last - at,
    when 0 <= at <= last <= bytes.len()
{
    at == last || match reader::head_at(bytes, at) {
        Ok((Head::Field(tag), next)) => match reader::value_at(bytes, next, tag) {
            Ok((_, end)) => at < end <= last && fields_up_to(bytes, end, last),
            Err(_) => false,
        },
        _ => false,
    }
}

/// Whether the group `number` that goes on at `at` ends at `end`: fields, and then
/// a tag that ends that group.
pub open spec fn is_group(bytes: Seq<u8>, at: int, number: u32, last: int, end: int) -> bool {
    &&& at <= last < end <= bytes.len()
    &&& fields_up_to(bytes, at, last)
    &&& reader::head_at(bytes, last) == Ok::<(Head, int), (Reason, int)>((Head::End(number), end))
}

/// Fields, and then the tag that ends the innermost open group.
proof fn lemma_group_closes(
    bytes: Seq<u8>,
    at: int,
    open: Seq<u32>,
    number: u32,
    last: int,
    end: int,
)
    requires
        0 <= at,
        is_group(bytes, at, number, last, end),
    ensures
        reader::close_at(bytes, at, open.push(number)) == reader::close_at(bytes, end, open),
    decreases last - at,
{
    assert(open.push(number).drop_last() == open);
    if at < last {
        if let Ok((Head::Field(tag), next)) = reader::head_at(bytes, at) {
            reader::lemma_head(bytes, at);
            reader::lemma_value(bytes, next, tag);
            if let Ok((_, over)) = reader::value_at(bytes, next, tag) {
                lemma_group_closes(bytes, over, open, number, last, end);
                if tag.wire == WireType::Group {
                    lemma_close_inner(bytes, next, open.push(number), seq![tag.number]);
                    assert(open.push(number) + seq![tag.number] == open.push(number).push(
                        tag.number,
                    ));
                }
            }
        }
    }
}

/// A group that ends has its end.
proof fn lemma_close_is_group(bytes: Seq<u8>, at: int, open: Seq<u32>, number: u32) -> (found: (
    int,
    int,
))
    requires
        0 <= at <= bytes.len(),
        reader::close_at(bytes, at, open.push(number)) is Ok,
    ensures
        is_group(bytes, at, number, found.0, found.1),
        reader::close_at(bytes, at, open.push(number)) == reader::close_at(bytes, found.1, open),
    decreases bytes.len() - at,
{
    assert(open.push(number).drop_last() == open);
    reader::lemma_head(bytes, at);
    match reader::head_at(bytes, at) {
        Err(_) => (at, at),
        Ok((Head::End(_), next)) => (at, next),
        Ok((Head::Field(tag), next)) => {
            if tag.wire == WireType::Group {
                let inner = lemma_close_is_group(bytes, next, open.push(number), tag.number);
                lemma_group_closes(bytes, next, Seq::empty(), tag.number, inner.0, inner.1);
                assert(Seq::<u32>::empty().push(tag.number) == seq![tag.number]);
                assert(reader::value_at(bytes, next, tag) == Ok::<(int, int), (Reason, int)>(
                    (next, inner.1),
                ));
                lemma_close_is_group(bytes, inner.1, open, number)
            } else {
                reader::lemma_plain(bytes, next, tag.wire);
                match reader::plain_at(bytes, next, tag.wire) {
                    Err(_) => (at, at),
                    Ok((_, over)) => lemma_close_is_group(bytes, over, open, number),
                }
            }
        },
    }
}

/// A group is fields, groups among them, and the tag of its number that ends it.
pub proof fn law_a_group_is_fields_and_its_end(bytes: Seq<u8>, at: int, number: u32, end: int)
    requires
        0 <= at <= bytes.len(),
    ensures
        reader::value_at(bytes, at, Tag { number, wire: WireType::Group }) == Ok::<
            (int, int),
            (Reason, int),
        >((at, end)) <==> exists|last: int| is_group(bytes, at, number, last, end),
{
    let tag = Tag { number, wire: WireType::Group };
    assert(Seq::<u32>::empty().push(number) == seq![number]);
    if reader::value_at(bytes, at, tag) == Ok::<(int, int), (Reason, int)>((at, end)) {
        let found = lemma_close_is_group(bytes, at, Seq::empty(), number);
        assert(is_group(bytes, at, number, found.0, end));
    }
    if exists|last: int| is_group(bytes, at, number, last, end) {
        let last = choose|last: int| is_group(bytes, at, number, last, end);
        lemma_group_closes(bytes, at, Seq::empty(), number, last, end);
    }
}

} // verus!
