//! The Protocol Buffers wire format: where the fields of a message are, and
//! how long each is. No schema is looked at.
//!
//! A message is fields back to back. A field is a tag, which is a varint that
//! holds a field number and a wire type, and a value, whose length is the wire
//! type's: a varint, eight bytes, a length and as many bytes, the fields of a
//! group up to the tag that ends it, or four bytes.
use vstd::prelude::*;

verus! {

/// How the value of a field is laid out.
#[derive(Clone, Copy, Debug, PartialEq, Eq, Structural)]
pub enum WireType {
    /// A varint.
    Varint,
    /// Eight bytes.
    I64,
    /// A length and as many bytes.
    Len,
    /// Fields up to the tag that ends the group.
    Group,
    /// Four bytes.
    I32,
}

/// What stands before a value: which field it is of, and how it is laid out.
#[derive(Clone, Copy, Debug, PartialEq, Eq, Structural)]
pub struct Tag {
    pub number: u32,
    pub wire: WireType,
}

/// Why bytes are no fields.
#[derive(Clone, Copy, Debug, PartialEq, Eq, Structural)]
pub enum Reason {
    /// The bytes end inside a varint.
    VarintCut,
    /// A varint goes on after its tenth byte.
    VarintLong,
    /// A varint holds more than sixty-four bits.
    VarintLarge,
    /// A field number is zero, or 2^29 or more.
    FieldNumber,
    /// A wire type is six or seven.
    NoWireType,
    /// The bytes end inside a value.
    ValueCut,
    /// The bytes end inside a group.
    GroupOpen,
    /// A tag ends a group that is not the innermost open one.
    GroupEnd,
}

/// Why a reader stopped, and at which byte.
#[derive(Clone, Copy, Debug, PartialEq, Eq, Structural)]
pub struct Stop {
    pub reason: Reason,
    pub at: usize,
}

impl View for Stop {
    type V = (Reason, int);

    open spec fn view(&self) -> (Reason, int) {
        (self.reason, self.at as int)
    }
}

/// What the words of a reason are.
pub open spec fn reason_text(reason: Reason) -> Seq<char> {
    match reason {
        Reason::VarintCut => "a varint cut off"@,
        Reason::VarintLong => "a varint longer than ten bytes"@,
        Reason::VarintLarge => "a varint of more than 64 bits"@,
        Reason::FieldNumber => "a field number outside the format's range"@,
        Reason::NoWireType => "a wire type the format does not have"@,
        Reason::ValueCut => "a value cut off"@,
        Reason::GroupOpen => "a group never closed"@,
        Reason::GroupEnd => "the end of a group that is not open"@,
    }
}

impl Reason {
    /// The reason in words.
    pub fn text(self) -> (out: &'static str)
        ensures
            out@ == reason_text(self),
    {
        match self {
            Reason::VarintCut => "a varint cut off",
            Reason::VarintLong => "a varint longer than ten bytes",
            Reason::VarintLarge => "a varint of more than 64 bits",
            Reason::FieldNumber => "a field number outside the format's range",
            Reason::NoWireType => "a wire type the format does not have",
            Reason::ValueCut => "a value cut off",
            Reason::GroupOpen => "a group never closed",
            Reason::GroupEnd => "the end of a group that is not open",
        }
    }
}

/// The number of a wire type on the wire.
pub open spec fn wire_number(wire: WireType) -> nat {
    match wire {
        WireType::Varint => 0,
        WireType::I64 => 1,
        WireType::Len => 2,
        WireType::Group => 3,
        WireType::I32 => 5,
    }
}

impl WireType {
    /// The number of the wire type on the wire.
    pub fn number(self) -> (out: u32)
        ensures
            out == wire_number(self),
    {
        match self {
            WireType::Varint => 0,
            WireType::I64 => 1,
            WireType::Len => 2,
            WireType::Group => 3,
            WireType::I32 => 5,
        }
    }
}

/// How many bytes from `at` on have their high bit set, one after the other.
pub open spec fn continued(bytes: Seq<u8>, at: int) -> nat
    decreases bytes.len() - at,
{
    if 0 <= at < bytes.len() && bytes[at] >= 128 {
        continued(bytes, at + 1) + 1
    } else {
        0
    }
}

/// The number in base 128 whose digits, the lowest first, are the bytes without
/// their high bits.
pub open spec fn base128(bytes: Seq<u8>) -> nat
    decreases bytes.len(),
{
    if bytes.len() == 0 {
        0
    } else {
        bytes[0] as nat % 128 + 128 * base128(bytes.drop_first())
    }
}

/// The varint at `at`, and where it ends: bytes with their high bit set, at most
/// nine, and one without.
pub open spec fn varint_at(bytes: Seq<u8>, at: int) -> Result<(u64, int), (Reason, int)> {
    let last = at + continued(bytes, at);
    if last - at >= 10 {
        Err((Reason::VarintLong, at))
    } else if last >= bytes.len() {
        Err((Reason::VarintCut, at))
    } else if base128(bytes.subrange(at, last + 1)) > u64::MAX {
        Err((Reason::VarintLarge, at))
    } else {
        Ok((base128(bytes.subrange(at, last + 1)) as u64, last + 1))
    }
}

/// What a tag says.
pub enum Head {
    /// That a field begins.
    Field(Tag),
    /// That the group of that number ends.
    End(u32),
}

/// The tag at `at`, and where it ends: a varint whose three low bits are the wire
/// type, the others the field number, from 1 to 2^29 - 1.
pub open spec fn head_at(bytes: Seq<u8>, at: int) -> Result<(Head, int), (Reason, int)> {
    match varint_at(bytes, at) {
        Err(stop) => Err(stop),
        Ok((value, next)) => if !(1 <= value / 8 < 0x2000_0000) {
            Err((Reason::FieldNumber, at))
        } else {
            let number = (value / 8) as u32;
            match value % 8 {
                0 => Ok((Head::Field(Tag { number, wire: WireType::Varint }), next)),
                1 => Ok((Head::Field(Tag { number, wire: WireType::I64 }), next)),
                2 => Ok((Head::Field(Tag { number, wire: WireType::Len }), next)),
                3 => Ok((Head::Field(Tag { number, wire: WireType::Group }), next)),
                4 => Ok((Head::End(number), next)),
                5 => Ok((Head::Field(Tag { number, wire: WireType::I32 }), next)),
                _ => Err((Reason::NoWireType, at)),
            }
        },
    }
}

/// The bytes from `at` on, `n` of them: from where to where.
pub open spec fn fixed_at(bytes: Seq<u8>, at: int, n: int) -> Result<(int, int), (Reason, int)> {
    if at + n <= bytes.len() {
        Ok((at, at + n))
    } else {
        Err((Reason::ValueCut, at))
    }
}

/// The end of the outermost of the groups `open`, the innermost last, that are
/// open at `at`: the fields of the innermost, and the tag of its number that
/// ends it, and so on outwards.
pub open spec fn close_at(bytes: Seq<u8>, at: int, open: Seq<u32>) -> Result<int, (Reason, int)>
    decreases bytes.len() - at,
{
    if open.len() == 0 {
        Ok(at)
    } else if at < 0 || at >= bytes.len() {
        Err((Reason::GroupOpen, at))
    } else {
        proof {
            lemma_head(bytes, at);
        }
        match head_at(bytes, at) {
            Err(stop) => Err(stop),
            Ok((Head::End(number), next)) => if number == open.last() {
                close_at(bytes, next, open.drop_last())
            } else {
                Err((Reason::GroupEnd, at))
            },
            Ok((Head::Field(tag), next)) => if tag.wire == WireType::Group {
                close_at(bytes, next, open.push(tag.number))
            } else {
                proof {
                    lemma_plain(bytes, next, tag.wire);
                }
                match plain_at(bytes, next, tag.wire) {
                    Err(stop) => Err(stop),
                    Ok((_, end)) => close_at(bytes, end, open),
                }
            },
        }
    }
}

/// The value at `at` of a field that is no group: from where to where.
pub open spec fn plain_at(bytes: Seq<u8>, at: int, wire: WireType) -> Result<
    (int, int),
    (Reason, int),
> {
    match wire {
        WireType::Varint => match varint_at(bytes, at) {
            Err(stop) => Err(stop),
            Ok((_, end)) => Ok((at, end)),
        },
        WireType::I64 => fixed_at(bytes, at, 8),
        WireType::I32 => fixed_at(bytes, at, 4),
        _ => match varint_at(bytes, at) {
            Err(stop) => Err(stop),
            Ok((length, start)) => fixed_at(bytes, start, length as int),
        },
    }
}

/// The value at `at` of a field of that tag: from where to where. The length of
/// a length-delimited value is not part of it; the tag that ends a group is.
pub open spec fn value_at(bytes: Seq<u8>, at: int, tag: Tag) -> Result<(int, int), (Reason, int)> {
    if tag.wire == WireType::Group {
        match close_at(bytes, at, seq![tag.number]) {
            Err(stop) => Err(stop),
            Ok(end) => Ok((at, end)),
        }
    } else {
        plain_at(bytes, at, tag.wire)
    }
}

/// The tag of the field at `at`, and where it ends; `None` past the last field.
pub open spec fn tag_at(bytes: Seq<u8>, at: int) -> Result<Option<(Tag, int)>, (Reason, int)> {
    if at >= bytes.len() {
        Ok(None)
    } else {
        match head_at(bytes, at) {
            Err(stop) => Err(stop),
            Ok((Head::Field(tag), next)) => Ok(Some((tag, next))),
            Ok((Head::End(_), _)) => Err((Reason::GroupEnd, at)),
        }
    }
}

/// Why the bytes from `at` on are no fields, if they are none.
pub open spec fn stop_from(bytes: Seq<u8>, at: int) -> Option<(Reason, int)>
    decreases bytes.len() - at,
    when 0 <= at <= bytes.len()
{
    match tag_at(bytes, at) {
        Err(stop) => Some(stop),
        Ok(None) => None,
        Ok(Some((tag, next))) => {
            proof {
                lemma_head(bytes, at);
                lemma_value(bytes, next, tag);
            }
            match value_at(bytes, next, tag) {
                Err(stop) => Some(stop),
                Ok((_, end)) => stop_from(bytes, end),
            }
        },
    }
}

/// A field among bytes: where it begins, its tag, and from where to where its
/// value goes.
pub struct Found {
    pub from: int,
    pub tag: Tag,
    pub start: int,
    pub end: int,
}

/// The fields of the bytes from `at` on, up to where they stop being any.
pub open spec fn fields_from(bytes: Seq<u8>, at: int) -> Seq<Found>
    decreases bytes.len() - at,
    when 0 <= at <= bytes.len()
{
    match tag_at(bytes, at) {
        Ok(Some((tag, next))) => {
            proof {
                lemma_head(bytes, at);
                lemma_value(bytes, next, tag);
            }
            match value_at(bytes, next, tag) {
                Ok((start, end)) => seq![Found { from: at, tag, start, end }]
                    + fields_from(bytes, end),
                Err(_) => Seq::empty(),
            }
        },
        _ => Seq::empty(),
    }
}

/// What goes on does so inside the bytes.
pub proof fn lemma_continued(bytes: Seq<u8>, at: int)
    requires
        0 <= at <= bytes.len(),
    ensures
        at + continued(bytes, at) <= bytes.len(),
    decreases bytes.len() - at,
{
    if at < bytes.len() && bytes[at] >= 128 {
        lemma_continued(bytes, at + 1);
    }
}

/// A varint takes at least one byte, all of them there.
pub proof fn lemma_varint(bytes: Seq<u8>, at: int)
    requires
        0 <= at <= bytes.len(),
    ensures
        varint_at(bytes, at) matches Ok((_, end)) ==> at < end <= bytes.len(),
{
    lemma_continued(bytes, at);
}

/// A tag takes at least one byte, all of them there.
pub proof fn lemma_head(bytes: Seq<u8>, at: int)
    requires
        0 <= at <= bytes.len(),
    ensures
        head_at(bytes, at) matches Ok((_, end)) ==> at < end <= bytes.len(),
{
    lemma_varint(bytes, at);
}

/// A value that is no group is where it begins or after, and all there.
pub proof fn lemma_plain(bytes: Seq<u8>, at: int, wire: WireType)
    requires
        0 <= at <= bytes.len(),
    ensures
        plain_at(bytes, at, wire) matches Ok((start, end)) ==> at <= start <= end <= bytes.len(),
{
    lemma_varint(bytes, at);
}

/// A group ends at or after where it goes on, and all there.
pub proof fn lemma_close(bytes: Seq<u8>, at: int, open: Seq<u32>)
    requires
        0 <= at <= bytes.len(),
    ensures
        close_at(bytes, at, open) matches Ok(end) ==> at <= end <= bytes.len(),
    decreases bytes.len() - at,
{
    if open.len() > 0 && at < bytes.len() {
        lemma_head(bytes, at);
        match head_at(bytes, at) {
            Err(_) => {},
            Ok((Head::End(_), next)) => {
                lemma_close(bytes, next, open.drop_last());
            },
            Ok((Head::Field(tag), next)) => {
                if tag.wire == WireType::Group {
                    lemma_close(bytes, next, open.push(tag.number));
                } else {
                    lemma_plain(bytes, next, tag.wire);
                    if let Ok((_, end)) = plain_at(bytes, next, tag.wire) {
                        lemma_close(bytes, end, open);
                    }
                }
            },
        }
    }
}

/// A value is where it begins or after, and all there.
pub proof fn lemma_value(bytes: Seq<u8>, at: int, tag: Tag)
    requires
        0 <= at <= bytes.len(),
    ensures
        value_at(bytes, at, tag) matches Ok((start, end)) ==> at <= start <= end <= bytes.len(),
{
    lemma_plain(bytes, at, tag.wire);
    lemma_close(bytes, at, seq![tag.number]);
}

/// The digits from `at` on make no more than all of them.
proof fn lemma_base128_suffix(bytes: Seq<u8>, at: int)
    requires
        0 <= at <= bytes.len(),
    ensures
        base128(bytes.skip(at)) <= base128(bytes),
    decreases bytes.len(),
{
    if at == 0 {
        assert(bytes.skip(0) == bytes);
    } else {
        assert(bytes.drop_first().skip(at - 1) == bytes.skip(at));
        lemma_base128_suffix(bytes.drop_first(), at - 1);
    }
}

/// The varint of `bytes` at `at`, and where it ends.
///
/// # Errors
/// A varint that the bytes cut off, that is longer than ten bytes, or that holds
/// more than sixty-four bits.
pub fn varint(bytes: &[u8], at: usize) -> (out: Result<(u64, usize), Stop>)
    ensures
        match out {
            Ok((value, end)) => varint_at(bytes@, at as int) == Ok::<(u64, int), (Reason, int)>(
                (value, end as int),
            ) && at < end <= bytes@.len(),
            Err(stop) => varint_at(bytes@, at as int) == Err::<(u64, int), (Reason, int)>(stop@),
        },
{
    let mut last: usize = at;
    while last < bytes.len() && bytes[last] >= 128
        invariant
            at <= last,
            last - at < 10,
            last == at || last <= bytes@.len(),
            continued(bytes@, at as int) == last - at + continued(bytes@, last as int),
        decreases bytes@.len() - last,
    {
        last = last + 1;
        if last - at == 10 {
            return Err(Stop { reason: Reason::VarintLong, at });
        }
    }
    if last >= bytes.len() {
        return Err(Stop { reason: Reason::VarintCut, at });
    }
    let ghost digits = bytes@.subrange(at as int, last + 1);
    let mut value: u64 = 0;
    let mut left: usize = last + 1 - at;
    assert(digits.skip(left as int) == Seq::<u8>::empty());
    while left > 0
        invariant
            at <= last < bytes@.len(),
            left <= last + 1 - at,
            last - at < 10,
            digits == bytes@.subrange(at as int, last + 1),
            last == at + continued(bytes@, at as int),
            value == base128(digits.skip(left as int)),
        decreases left,
    {
        left = left - 1;
        let byte: u8 = bytes[at + left];
        proof {
            assert(digits.skip(left as int)[0] == byte);
            assert(digits.skip(left as int).drop_first() == digits.skip(left + 1));
        }
        let longer: u128 = value as u128 * 128 + (byte % 128) as u128;
        if longer > 0xffff_ffff_ffff_ffff {
            proof {
                lemma_base128_suffix(digits, left as int);
            }
            return Err(Stop { reason: Reason::VarintLarge, at });
        }
        value = longer as u64;
    }
    assert(digits.skip(0) == digits);
    Ok((value, last + 1))
}

/// The tag of `bytes` at `at`, and where it ends.
fn head(bytes: &[u8], at: usize) -> (out: Result<(Head, usize), Stop>)
    requires
        at <= bytes@.len(),
    ensures
        match out {
            Ok((head, end)) => head_at(bytes@, at as int) == Ok::<(Head, int), (Reason, int)>(
                (head, end as int),
            ) && at < end <= bytes@.len(),
            Err(stop) => head_at(bytes@, at as int) == Err::<(Head, int), (Reason, int)>(stop@),
        },
{
    let (value, next) = varint(bytes, at)?;
    if value / 8 < 1 || value / 8 >= 0x2000_0000 {
        return Err(Stop { reason: Reason::FieldNumber, at });
    }
    let number: u32 = (value / 8) as u32;
    let wire = match value % 8 {
        0 => WireType::Varint,
        1 => WireType::I64,
        2 => WireType::Len,
        3 => WireType::Group,
        4 => {
            return Ok((Head::End(number), next));
        },
        5 => WireType::I32,
        _ => {
            return Err(Stop { reason: Reason::NoWireType, at });
        },
    };
    Ok((Head::Field(Tag { number, wire }), next))
}

/// The `n` bytes of `bytes` from `at` on: from where to where.
fn fixed(bytes: &[u8], at: usize, n: u64) -> (out: Result<(usize, usize), Stop>)
    requires
        at <= bytes@.len(),
    ensures
        match out {
            Ok((start, end)) => fixed_at(bytes@, at as int, n as int) == Ok::<
                (int, int),
                (Reason, int),
            >((start as int, end as int)) && at <= start <= end <= bytes@.len(),
            Err(stop) => fixed_at(bytes@, at as int, n as int) == Err::<(int, int), (Reason, int)>(
                stop@,
            ),
        },
{
    if n <= (bytes.len() - at) as u64 {
        Ok((at, at + n as usize))
    } else {
        Err(Stop { reason: Reason::ValueCut, at })
    }
}

/// The value of `bytes` at `at` of a field that is no group: from where to where.
fn plain(bytes: &[u8], at: usize, wire: WireType) -> (out: Result<(usize, usize), Stop>)
    requires
        at <= bytes@.len(),
    ensures
        match out {
            Ok((start, end)) => plain_at(bytes@, at as int, wire) == Ok::<
                (int, int),
                (Reason, int),
            >((start as int, end as int)) && at <= start <= end <= bytes@.len(),
            Err(stop) => plain_at(bytes@, at as int, wire) == Err::<(int, int), (Reason, int)>(
                stop@,
            ),
        },
{
    match wire {
        WireType::Varint => {
            let (_, end) = varint(bytes, at)?;
            Ok((at, end))
        },
        WireType::I64 => fixed(bytes, at, 8),
        WireType::I32 => fixed(bytes, at, 4),
        _ => {
            let (length, start) = varint(bytes, at)?;
            fixed(bytes, start, length)
        },
    }
}

/// Where the group `number` of `bytes` that goes on at `at` ends.
fn close(bytes: &[u8], at: usize, number: u32) -> (out: Result<usize, Stop>)
    requires
        at <= bytes@.len(),
    ensures
        match out {
            Ok(end) => close_at(bytes@, at as int, seq![number]) == Ok::<int, (Reason, int)>(
                end as int,
            ) && at <= end <= bytes@.len(),
            Err(stop) => close_at(bytes@, at as int, seq![number]) == Err::<int, (Reason, int)>(
                stop@,
            ),
        },
{
    let mut open: Vec<u32> = Vec::new();
    open.push(number);
    let mut here: usize = at;
    assert(open@ == seq![number]);
    while open.len() > 0
        invariant
            at <= here <= bytes@.len(),
            close_at(bytes@, at as int, seq![number]) == close_at(bytes@, here as int, open@),
        decreases bytes@.len() - here,
    {
        if here >= bytes.len() {
            return Err(Stop { reason: Reason::GroupOpen, at: here });
        }
        match head(bytes, here)? {
            (Head::End(ended), next) => {
                if ended != open[open.len() - 1] {
                    return Err(Stop { reason: Reason::GroupEnd, at: here });
                }
                let ghost before = open@;
                open.pop();
                assert(open@ == before.drop_last());
                here = next;
            },
            (Head::Field(tag), next) => {
                if tag.wire == WireType::Group {
                    open.push(tag.number);
                    here = next;
                } else {
                    let (_, end) = plain(bytes, next, tag.wire)?;
                    here = end;
                }
            },
        }
    }
    Ok(here)
}

/// A reader of the fields of `bytes`.
pub struct Reader<'a> {
    bytes: &'a [u8],
    at: usize,
}

impl<'a> Reader<'a> {
    /// The bytes that are read.
    pub closed spec fn bytes(&self) -> Seq<u8> {
        self.bytes@
    }

    /// The index of the next byte.
    pub closed spec fn at(&self) -> int {
        self.at as int
    }

    /// The next byte is there, or none is left.
    pub open spec fn wf(&self) -> bool {
        0 <= self.at() <= self.bytes().len()
    }

    #[verifier::type_invariant]
    spec fn inside(self) -> bool {
        self.at <= self.bytes@.len()
    }

    /// A reader at the first of `bytes`.
    pub fn new(bytes: &'a [u8]) -> (out: Self)
        ensures
            out.bytes() == bytes@,
            out.at() == 0,
            out.wf(),
    {
        Reader { bytes, at: 0 }
    }

    /// The tag of the next field, `None` where no field is left.
    ///
    /// # Errors
    /// No tag where one has to be.
    pub fn tag(&mut self) -> (out: Result<Option<Tag>, Stop>)
        ensures
            final(self).wf(),
            final(self).bytes() == old(self).bytes(),
            match out {
                Ok(Some(tag)) => {
                    &&& tag_at(old(self).bytes(), old(self).at()) == Ok::<
                        Option<(Tag, int)>,
                        (Reason, int),
                    >(Some((tag, final(self).at())))
                    &&& old(self).at() < final(self).at()
                },
                Ok(None) => {
                    &&& tag_at(old(self).bytes(), old(self).at()) == Ok::<
                        Option<(Tag, int)>,
                        (Reason, int),
                    >(None)
                    &&& final(self).at() == old(self).at()
                },
                Err(stop) => tag_at(old(self).bytes(), old(self).at()) == Err::<
                    Option<(Tag, int)>,
                    (Reason, int),
                >(stop@),
            },
    {
        proof {
            use_type_invariant(&*self);
        }
        if self.at >= self.bytes.len() {
            return Ok(None);
        }
        match head(self.bytes, self.at)? {
            (Head::End(_), _) => Err(Stop { reason: Reason::GroupEnd, at: self.at }),
            (Head::Field(tag), next) => {
                self.at = next;
                Ok(Some(tag))
            },
        }
    }

    /// The value of the field whose tag was `tag`: from where to where.
    ///
    /// # Errors
    /// A value that is not as long as its wire type says.
    pub fn value(&mut self, tag: Tag) -> (out: Result<(usize, usize), Stop>)
        ensures
            final(self).wf(),
            final(self).bytes() == old(self).bytes(),
            match out {
                Ok((start, end)) => {
                    &&& value_at(old(self).bytes(), old(self).at(), tag) == Ok::<
                        (int, int),
                        (Reason, int),
                    >((start as int, end as int))
                    &&& old(self).at() <= start <= end == final(self).at()
                },
                Err(stop) => value_at(old(self).bytes(), old(self).at(), tag) == Err::<
                    (int, int),
                    (Reason, int),
                >(stop@),
            },
    {
        proof {
            use_type_invariant(&*self);
        }
        let (start, end) = if tag.wire == WireType::Group {
            (self.at, close(self.bytes, self.at, tag.number)?)
        } else {
            plain(self.bytes, self.at, tag.wire)?
        };
        self.at = end;
        Ok((start, end))
    }
}

} // verus!
