//! Reading bytes that are joined from two parts: what is read inside the first
//! part is read as if the second were not there, and what is read inside the
//! second as if the first were not there, at its own place.
use crate::reader;
use crate::reader::{Head, Reason, Tag, WireType};
use vstd::prelude::*;

verus! {

/// A stop `by` bytes further on.
pub open spec fn stop_moved(stop: (Reason, int), by: int) -> (Reason, int) {
    (stop.0, stop.1 + by)
}

proof fn lemma_continued_before(a: Seq<u8>, b: Seq<u8>, at: int)
    requires
        0 <= at <= a.len(),
        at + reader::continued(a, at) < a.len(),
    ensures
        reader::continued(a + b, at) == reader::continued(a, at),
    decreases a.len() - at,
{
    assert((a + b)[at] == a[at]);
    if a[at] >= 128 {
        lemma_continued_before(a, b, at + 1);
    }
}

/// A varint inside the first part.
pub proof fn lemma_varint_before(a: Seq<u8>, b: Seq<u8>, at: int)
    requires
        0 <= at <= a.len(),
        reader::varint_at(a, at) is Ok,
    ensures
        reader::varint_at(a + b, at) == reader::varint_at(a, at),
{
    lemma_continued_before(a, b, at);
    let last = at + reader::continued(a, at);
    assert((a + b).subrange(at, last + 1) == a.subrange(at, last + 1));
}

proof fn lemma_continued_cut(a: Seq<u8>, b: Seq<u8>, at: int)
    requires
        0 <= at <= a.len(),
        at + reader::continued(a + b, at) < a.len(),
    ensures
        reader::continued(a, at) == reader::continued(a + b, at),
    decreases a.len() - at,
{
    assert((a + b)[at] == a[at]);
    if a[at] >= 128 {
        lemma_continued_cut(a, b, at + 1);
    }
}

/// A varint that ends where the first part does.
pub proof fn lemma_varint_cut(a: Seq<u8>, b: Seq<u8>)
    requires
        a.len() > 0,
        reader::varint_at(a + b, 0) matches Ok((_, end)) && end == a.len(),
    ensures
        reader::varint_at(a, 0) == reader::varint_at(a + b, 0),
{
    lemma_continued_cut(a, b, 0);
    assert((a + b).subrange(0, a.len() as int) == a.subrange(0, a.len() as int));
}

/// A tag inside the first part.
pub proof fn lemma_head_before(a: Seq<u8>, b: Seq<u8>, at: int)
    requires
        0 <= at <= a.len(),
        reader::head_at(a, at) is Ok,
    ensures
        reader::head_at(a + b, at) == reader::head_at(a, at),
{
    lemma_varint_before(a, b, at);
}

proof fn lemma_plain_before(a: Seq<u8>, b: Seq<u8>, at: int, wire: WireType)
    requires
        0 <= at <= a.len(),
        reader::plain_at(a, at, wire) is Ok,
    ensures
        reader::plain_at(a + b, at, wire) == reader::plain_at(a, at, wire),
{
    if wire == WireType::Varint || wire == WireType::Len || wire == WireType::Group {
        lemma_varint_before(a, b, at);
    }
}

proof fn lemma_close_before(a: Seq<u8>, b: Seq<u8>, at: int, open: Seq<u32>)
    requires
        0 <= at <= a.len(),
        reader::close_at(a, at, open) is Ok,
    ensures
        reader::close_at(a + b, at, open) == reader::close_at(a, at, open),
    decreases a.len() - at,
{
    if open.len() > 0 {
        reader::lemma_head(a, at);
        lemma_head_before(a, b, at);
        match reader::head_at(a, at) {
            Err(_) => {},
            Ok((Head::End(_), next)) => {
                lemma_close_before(a, b, next, open.drop_last());
            },
            Ok((Head::Field(tag), next)) => {
                if tag.wire == WireType::Group {
                    lemma_close_before(a, b, next, open.push(tag.number));
                } else {
                    reader::lemma_plain(a, next, tag.wire);
                    lemma_plain_before(a, b, next, tag.wire);
                    if let Ok((_, end)) = reader::plain_at(a, next, tag.wire) {
                        lemma_close_before(a, b, end, open);
                    }
                }
            },
        }
    }
}

/// A value inside the first part.
pub proof fn lemma_value_before(a: Seq<u8>, b: Seq<u8>, at: int, tag: Tag)
    requires
        0 <= at <= a.len(),
        reader::value_at(a, at, tag) is Ok,
    ensures
        reader::value_at(a + b, at, tag) == reader::value_at(a, at, tag),
{
    if tag.wire == WireType::Group {
        lemma_close_before(a, b, at, seq![tag.number]);
    } else {
        lemma_plain_before(a, b, at, tag.wire);
    }
}

/// How far a varint inside the second part goes on.
pub proof fn lemma_continued_after(a: Seq<u8>, b: Seq<u8>, at: int)
    requires
        0 <= at <= b.len(),
    ensures
        reader::continued(a + b, a.len() + at) == reader::continued(b, at),
    decreases b.len() - at,
{
    if at < b.len() {
        assert((a + b)[a.len() + at] == b[at]);
        lemma_continued_after(a, b, at + 1);
    }
}

/// A varint inside the second part.
pub proof fn lemma_varint_after(a: Seq<u8>, b: Seq<u8>, at: int)
    requires
        0 <= at <= b.len(),
    ensures
        reader::varint_at(a + b, a.len() + at) == (match reader::varint_at(b, at) {
            Ok((value, end)) => Ok((value, a.len() + end)),
            Err(stop) => Err(stop_moved(stop, a.len() as int)),
        }),
{
    lemma_continued_after(a, b, at);
    let last = at + reader::continued(b, at);
    if last < b.len() {
        assert((a + b).subrange(a.len() + at, a.len() + last + 1) == b.subrange(at, last + 1));
    }
}

/// A tag inside the second part.
pub proof fn lemma_head_after(a: Seq<u8>, b: Seq<u8>, at: int)
    requires
        0 <= at <= b.len(),
    ensures
        reader::head_at(a + b, a.len() + at) == (match reader::head_at(b, at) {
            Ok((head, end)) => Ok((head, a.len() + end)),
            Err(stop) => Err(stop_moved(stop, a.len() as int)),
        }),
{
    lemma_varint_after(a, b, at);
}

proof fn lemma_plain_after(a: Seq<u8>, b: Seq<u8>, at: int, wire: WireType)
    requires
        0 <= at <= b.len(),
    ensures
        reader::plain_at(a + b, a.len() + at, wire) == (match reader::plain_at(b, at, wire) {
            Ok((start, end)) => Ok((a.len() + start, a.len() + end)),
            Err(stop) => Err(stop_moved(stop, a.len() as int)),
        }),
{
    lemma_varint_after(a, b, at);
}

proof fn lemma_close_after(a: Seq<u8>, b: Seq<u8>, at: int, open: Seq<u32>)
    requires
        0 <= at <= b.len(),
    ensures
        reader::close_at(a + b, a.len() + at, open) == (match reader::close_at(b, at, open) {
            Ok(end) => Ok(a.len() + end),
            Err(stop) => Err(stop_moved(stop, a.len() as int)),
        }),
    decreases b.len() - at,
{
    if open.len() > 0 && at < b.len() {
        reader::lemma_head(b, at);
        lemma_head_after(a, b, at);
        match reader::head_at(b, at) {
            Err(_) => {},
            Ok((Head::End(_), next)) => {
                lemma_close_after(a, b, next, open.drop_last());
            },
            Ok((Head::Field(tag), next)) => {
                if tag.wire == WireType::Group {
                    lemma_close_after(a, b, next, open.push(tag.number));
                } else {
                    reader::lemma_plain(b, next, tag.wire);
                    lemma_plain_after(a, b, next, tag.wire);
                    if let Ok((_, end)) = reader::plain_at(b, next, tag.wire) {
                        lemma_close_after(a, b, end, open);
                    }
                }
            },
        }
    }
}

/// A value inside the second part.
pub proof fn lemma_value_after(a: Seq<u8>, b: Seq<u8>, at: int, tag: Tag)
    requires
        0 <= at <= b.len(),
    ensures
        reader::value_at(a + b, a.len() + at, tag) == (match reader::value_at(b, at, tag) {
            Ok((start, end)) => Ok((a.len() + start, a.len() + end)),
            Err(stop) => Err(stop_moved(stop, a.len() as int)),
        }),
{
    lemma_close_after(a, b, at, seq![tag.number]);
    lemma_plain_after(a, b, at, tag.wire);
}

/// The field that begins inside the second part.
pub proof fn lemma_field_after(a: Seq<u8>, b: Seq<u8>, at: int)
    requires
        0 <= at <= b.len(),
    ensures
        match reader::tag_at(b, at) {
            Err(_) => reader::tag_at(a + b, a.len() + at) is Err,
            Ok(None) => reader::tag_at(a + b, a.len() + at) matches Ok(None),
            Ok(Some((tag, next))) => {
                &&& at < next <= b.len()
                &&& reader::tag_at(a + b, a.len() + at) == Ok::<
                    Option<(Tag, int)>,
                    (Reason, int),
                >(Some((tag, a.len() + next)))
                &&& match reader::value_at(b, next, tag) {
                    Err(_) => reader::value_at(a + b, a.len() + next, tag) is Err,
                    Ok((start, end)) => {
                        &&& next <= start <= end <= b.len()
                        &&& reader::value_at(a + b, a.len() + next, tag) == Ok::<
                            (int, int),
                            (Reason, int),
                        >((a.len() + start, a.len() + end))
                        &&& (a + b).subrange(a.len() + start, a.len() + end) == b.subrange(
                            start,
                            end,
                        )
                    },
                }
            },
        },
{
    reader::lemma_head(b, at);
    lemma_head_after(a, b, at);
    if let Ok(Some((tag, next))) = reader::tag_at(b, at) {
        reader::lemma_value(b, next, tag);
        lemma_value_after(a, b, next, tag);
    }
}

/// Fields inside the second part.
pub proof fn lemma_stop_after(a: Seq<u8>, b: Seq<u8>, at: int)
    requires
        0 <= at <= b.len(),
    ensures
        reader::stop_from(a + b, a.len() + at) == (match reader::stop_from(b, at) {
            Some(stop) => Some(stop_moved(stop, a.len() as int)),
            None => None,
        }),
    decreases b.len() - at,
{
    reader::lemma_head(b, at);
    lemma_head_after(a, b, at);
    if let Ok(Some((tag, next))) = reader::tag_at(b, at) {
        reader::lemma_value(b, next, tag);
        lemma_value_after(a, b, next, tag);
        if let Ok((_, end)) = reader::value_at(b, next, tag) {
            lemma_stop_after(a, b, end);
        }
    }
}

/// Fields of the first part that end where it does.
pub proof fn lemma_stop_before(a: Seq<u8>, b: Seq<u8>, at: int)
    requires
        0 <= at <= a.len(),
        reader::stop_from(a, at) is None,
    ensures
        reader::stop_from(a + b, at) == reader::stop_from(a + b, a.len() as int),
    decreases a.len() - at,
{
    reader::lemma_head(a, at);
    if let Ok(Some((tag, next))) = reader::tag_at(a, at) {
        lemma_head_before(a, b, at);
        reader::lemma_value(a, next, tag);
        lemma_value_before(a, b, next, tag);
        if let Ok((_, end)) = reader::value_at(a, next, tag) {
            lemma_stop_before(a, b, end);
        }
    }
}

} // verus!
