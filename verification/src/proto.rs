//! A `.proto` file read into its messages.
use std::collections::HashMap;
use crate::text;
use vstd::prelude::*;
use vstd::string::*;

verus! {

broadcast use vstd::std_specs::hash::group_hash_axioms;

/// What a field's bytes are.
#[derive(Debug, PartialEq, Eq)]
pub enum Kind {
    /// `int32`, `int64`, `uint32`, `uint64`, `sint32`, `sint64`, `bool`,
    /// and an enum: wire type 0.
    Varint,
    /// `fixed64`, `sfixed64`, `double`: wire type 1.
    Fixed64,
    /// `fixed32`, `sfixed32`, `float`: wire type 5.
    Fixed32,
    /// `string`: wire type 2, UTF-8.
    Text,
    /// `bytes`: wire type 2, anything.
    Bytes,
    /// An embedded message, by full name: wire type 2, decoded.
    Message(String),
    /// A `map<K, V>`: wire type 2, each entry a message of fields 1 and 2.
    MapOf(Box<Kind>, Box<Kind>),
    /// A type this file does not define: wire type 2, not looked into.
    Opaque,
}

/// A field of a message.
#[derive(Clone, Debug, PartialEq, Eq)]
pub struct Field {
    pub name: String,
    pub kind: Kind,
    pub repeated: bool,
}

/// One message: its fields by number.
#[derive(Debug, PartialEq, Eq)]
pub struct Message {
    pub fields: HashMap<u32, Field>,
}

/// The messages of a file by full name.
#[derive(Debug)]
pub struct Messages {
    entries: Vec<(String, Message)>,
}

/// A parsed file: its package, and every message by full name.
#[derive(Debug)]
pub struct File {
    pub package: String,
    pub messages: Messages,
    pub imports: Vec<String>,
    pub enums: Vec<String>,
}

/// A [`Kind`] with its names as sequences of characters.
pub enum KindModel {
    Varint,
    Fixed64,
    Fixed32,
    Text,
    Bytes,
    Message(Seq<char>),
    MapOf(Box<KindModel>, Box<KindModel>),
    Opaque,
}

/// A [`Field`] with its name as a sequence of characters.
pub struct FieldModel {
    pub name: Seq<char>,
    pub kind: KindModel,
    pub repeated: bool,
}

/// The fields of a message by number.
pub type MessageModel = Map<u32, FieldModel>;

/// The messages of a file by full name.
pub type MessagesModel = Map<Seq<char>, MessageModel>;

/// What a [`File`] says.
#[verifier::ext_equal]
pub struct FileModel {
    pub package: Seq<char>,
    pub messages: MessagesModel,
    pub imports: Seq<Seq<char>>,
    pub enums: Seq<Seq<char>>,
}

impl Kind {
    /// What the kind says.
    pub open spec fn model(&self) -> KindModel
        decreases self,
    {
        match self {
            Kind::Varint => KindModel::Varint,
            Kind::Fixed64 => KindModel::Fixed64,
            Kind::Fixed32 => KindModel::Fixed32,
            Kind::Text => KindModel::Text,
            Kind::Bytes => KindModel::Bytes,
            Kind::Message(name) => KindModel::Message(name@),
            Kind::MapOf(key, value) => KindModel::MapOf(
                Box::new(key.model()),
                Box::new(value.model()),
            ),
            Kind::Opaque => KindModel::Opaque,
        }
    }
}

impl View for Kind {
    type V = KindModel;

    open spec fn view(&self) -> KindModel {
        self.model()
    }
}

impl Clone for Kind {
    fn clone(&self) -> (out: Self)
        ensures
            out@ == self@,
        decreases self,
    {
        match self {
            Kind::Varint => Kind::Varint,
            Kind::Fixed64 => Kind::Fixed64,
            Kind::Fixed32 => Kind::Fixed32,
            Kind::Text => Kind::Text,
            Kind::Bytes => Kind::Bytes,
            Kind::Message(name) => Kind::Message(name.clone()),
            Kind::MapOf(key, value) => Kind::MapOf(
                Box::new((**key).clone()),
                Box::new((**value).clone()),
            ),
            Kind::Opaque => Kind::Opaque,
        }
    }
}

impl View for Field {
    type V = FieldModel;

    open spec fn view(&self) -> FieldModel {
        FieldModel { name: self.name@, kind: self.kind@, repeated: self.repeated }
    }
}

impl View for Message {
    type V = MessageModel;

    open spec fn view(&self) -> MessageModel {
        self.fields@.map_values(|field: Field| field@)
    }
}

/// The first index at or after `at` whose entry is named `name`, the number of
/// entries where there is none.
pub closed spec fn slot(entries: Seq<(String, Message)>, name: Seq<char>, at: int) -> int
    decreases entries.len() - at,
{
    if 0 <= at < entries.len() && entries[at].0@ != name {
        slot(entries, name, at + 1)
    } else {
        at
    }
}

/// The messages that the entries are, by name.
pub closed spec fn shown(entries: Seq<(String, Message)>) -> MessagesModel {
    Map::new(
        |name: Seq<char>| slot(entries, name, 0) < entries.len(),
        |name: Seq<char>| entries[slot(entries, name, 0)].1@,
    )
}

/// Whether no name occurs twice.
spec fn distinct(entries: Seq<(String, Message)>) -> bool {
    forall|i: int, j: int| 0 <= i < j < entries.len() ==> entries[i].0@ != entries[j].0@
}

impl View for Messages {
    type V = MessagesModel;

    closed spec fn view(&self) -> MessagesModel {
        shown(self.entries@)
    }
}

impl View for File {
    type V = FileModel;

    open spec fn view(&self) -> FileModel {
        FileModel {
            package: self.package@,
            messages: self.messages@,
            imports: texts(self.imports@),
            enums: texts(self.enums@),
        }
    }
}

/// The characters of each string.
pub open spec fn texts(strings: Seq<String>) -> Seq<Seq<char>> {
    strings.map_values(|s: String| s@)
}

/// Where `slot` stops: at the first entry of the name, or past the last.
proof fn lemma_slot(entries: Seq<(String, Message)>, name: Seq<char>, at: int)
    requires
        0 <= at <= entries.len(),
    ensures
        at <= slot(entries, name, at) <= entries.len(),
        slot(entries, name, at) < entries.len() ==> entries[slot(entries, name, at)].0@ == name,
        forall|i: int| at <= i < slot(entries, name, at) ==> entries[i].0@ != name,
    decreases entries.len() - at,
{
    if at < entries.len() && entries[at].0@ != name {
        lemma_slot(entries, name, at + 1);
    }
}

/// There is one index where `slot` can stop.
proof fn lemma_slot_is(entries: Seq<(String, Message)>, name: Seq<char>, at: int)
    requires
        0 <= at <= entries.len(),
        at < entries.len() ==> entries[at].0@ == name,
        forall|i: int| 0 <= i < at ==> entries[i].0@ != name,
    ensures
        slot(entries, name, 0) == at,
{
    lemma_slot(entries, name, 0);
}

/// The index of the entry `name`, the number of entries where there is none.
fn position(entries: &Vec<(String, Message)>, name: &str) -> (at: usize)
    ensures
        at == slot(entries@, name@, 0),
        at <= entries@.len(),
        at < entries@.len() ==> entries@[at as int].0@ == name@,
        shown(entries@).contains_key(name@) == (at < entries@.len()),
        at < entries@.len() ==> shown(entries@)[name@] == entries@[at as int].1@,
{
    let mut at: usize = 0;
    while at < entries.len() && !text::same(entries[at].0.as_str(), name)
        invariant
            at <= entries@.len(),
            slot(entries@, name@, at as int) == slot(entries@, name@, 0),
        decreases entries@.len() - at,
    {
        at = at + 1;
    }
    at
}

/// The index of the entry `name`, which is added without fields if there was none.
fn ensured(entries: &mut Vec<(String, Message)>, name: &str) -> (at: usize)
    requires
        distinct(old(entries)@),
    ensures
        shown(final(entries)@) == declared(shown(old(entries)@), name@),
        distinct(final(entries)@),
        at == slot(final(entries)@, name@, 0),
        at < final(entries)@.len(),
        final(entries)@[at as int].0@ == name@,
        shown(final(entries)@)[name@] == final(entries)@[at as int].1@,
{
    let at: usize = position(entries, name);
    if at == entries.len() {
        let ghost before = entries@;
        entries.push((name.to_string(), Message { fields: HashMap::new() }));
        proof {
            assert(entries@[at as int].1@ == MessageModel::empty());
            assert forall|other: Seq<char>|
                #![trigger slot(entries@, other, 0)]
                #![trigger slot(before, other, 0)]
                0 <= slot(before, other, 0) && slot(entries@, other, 0) == (if slot(
                    before,
                    other,
                    0,
                ) < at || other == name@ {
                    slot(before, other, 0)
                } else {
                    at + 1
                }) by {
                lemma_slot(before, other, 0);
                if slot(before, other, 0) < at || other == name@ {
                    lemma_slot_is(entries@, other, slot(before, other, 0));
                } else {
                    lemma_slot_is(entries@, other, at + 1);
                }
            }
            assert(shown(entries@) =~= declared(shown(before), name@));
            lemma_slot(before, name@, 0);
        }
    }
    at
}

impl Messages {
    /// No name occurs twice.
    #[verifier::type_invariant]
    spec fn once(self) -> bool {
        distinct(self.entries@)
    }

    /// No messages.
    pub fn new() -> (out: Self)
        ensures
            out@ == MessagesModel::empty(),
    {
        let out = Messages { entries: Vec::new() };
        assert(out@ == MessagesModel::empty()) by {
            assert forall|name: Seq<char>| !out@.contains_key(name) by {
                lemma_slot(out.entries@, name, 0);
            }
        }
        out
    }

    /// Whether there is no message.
    pub fn is_empty(&self) -> (answer: bool)
        ensures
            answer == (self@ == MessagesModel::empty()),
    {
        proof {
            if self.entries@.len() == 0 {
                assert forall|name: Seq<char>| !self@.contains_key(name) by {
                    lemma_slot(self.entries@, name, 0);
                }
                assert(self@ == MessagesModel::empty());
            } else {
                lemma_slot_is(self.entries@, self.entries@[0].0@, 0);
                assert(self@.contains_key(self.entries@[0].0@));
            }
        }
        self.entries.len() == 0
    }

    /// How many messages there are.
    pub fn len(&self) -> (out: usize)
        ensures
            self@.dom().finite(),
            out == self@.dom().len(),
    {
        proof {
            use_type_invariant(self);
            lemma_names(self.entries@);
        }
        self.entries.len()
    }

    /// The names of the messages, each once.
    pub fn names(&self) -> (out: Vec<String>)
        ensures
            texts(out@).no_duplicates(),
            texts(out@).to_set() == self@.dom(),
    {
        let mut out: Vec<String> = Vec::new();
        let mut at: usize = 0;
        while at < self.entries.len()
            invariant
                at <= self.entries@.len(),
                texts(out@) == names_of(self.entries@).take(at as int),
            decreases self.entries@.len() - at,
        {
            let name = self.entries[at].0.clone();
            let ghost before = out@;
            out.push(name);
            assert(texts(out@) =~= texts(before).push(name@));
            assert(names_of(self.entries@).take(at + 1) =~= names_of(self.entries@).take(
                at as int,
            ).push(name@));
            at = at + 1;
        }
        proof {
            use_type_invariant(self);
            lemma_names(self.entries@);
            assert(texts(out@) =~= names_of(self.entries@));
        }
        out
    }

    /// The message `name`, if there is one.
    pub fn get(&self, name: &str) -> (out: Option<&Message>)
        ensures
            match out {
                Some(message) => self@.contains_key(name@) && message@ == self@[name@],
                None => !self@.contains_key(name@),
            },
    {
        let at: usize = position(&self.entries, name);
        if at < self.entries.len() {
            Some(&self.entries[at].1)
        } else {
            None
        }
    }

    /// Whether there is a message `name`.
    pub fn contains_key(&self, name: &str) -> (answer: bool)
        ensures
            answer == self@.contains_key(name@),
    {
        position(&self.entries, name) < self.entries.len()
    }

    /// Make `message` the message `name`; the one that was it, if there was one.
    pub fn insert(&mut self, name: &str, message: Message) -> (out: Option<Message>)
        ensures
            final(self)@ == old(self)@.insert(name@, message@),
            match out {
                Some(before) => old(self)@.contains_key(name@) && before@ == old(self)@[name@],
                None => !old(self)@.contains_key(name@),
            },
    {
        proof {
            use_type_invariant(&*self);
        }
        let was = self.contains_key(name);
        let mut entries: Vec<(String, Message)> = Vec::new();
        std::mem::swap(&mut entries, &mut self.entries);
        let at: usize = ensured(&mut entries, name);
        let ghost before = entries@;
        let mut other = message;
        std::mem::swap(&mut entries[at].1, &mut other);
        proof {
            lemma_updated(before, entries@, at as int, name@);
            assert(shown(entries@) =~= old(self)@.insert(name@, message@));
        }
        self.entries = entries;
        if was {
            Some(other)
        } else {
            None
        }
    }

    /// Make sure there is a message `name`: one without fields if there was
    /// none.
    pub(crate) fn declare(&mut self, name: &str)
        ensures
            final(self)@ == declared(old(self)@, name@),
    {
        proof {
            use_type_invariant(&*self);
        }
        let mut entries: Vec<(String, Message)> = Vec::new();
        std::mem::swap(&mut entries, &mut self.entries);
        ensured(&mut entries, name);
        self.entries = entries;
    }

    /// Give the message `name`, which is declared if it was not, the field
    /// `number`, in place of one it had.
    pub(crate) fn put(&mut self, name: &str, number: u32, field: Field)
        ensures
            final(self)@ == with_field(old(self)@, name@, number, field@),
    {
        proof {
            use_type_invariant(&*self);
        }
        let mut entries: Vec<(String, Message)> = Vec::new();
        std::mem::swap(&mut entries, &mut self.entries);
        let at: usize = ensured(&mut entries, name);
        let ghost before = entries@;
        entries[at].1.fields.insert(number, field);
        proof {
            assert(entries@[at as int].1@ =~= before[at as int].1@.insert(number, field@));
            lemma_updated(before, entries@, at as int, name@);
            assert(shown(entries@) =~= with_field(old(self)@, name@, number, field@));
        }
        self.entries = entries;
    }

    /// Give the field `number` of the message `name` the type that its name
    /// was found to stand for, if there is such a field whose type was not known.
    pub(crate) fn settle(&mut self, name: &str, number: u32, kind: Kind)
        ensures
            final(self)@ == settled(old(self)@, name@, number, kind@),
    {
        proof {
            use_type_invariant(&*self);
        }
        let at: usize = position(&self.entries, name);
        if at == self.entries.len() {
            return ;
        }
        let mut entries: Vec<(String, Message)> = Vec::new();
        std::mem::swap(&mut entries, &mut self.entries);
        let ghost before = entries@;
        if let Some(field) = entries[at].1.fields.remove(&number) {
            let kind = match field.kind {
                Kind::MapOf(key, _) => Kind::MapOf(key, Box::new(kind)),
                Kind::Opaque => kind,
                known => known,
            };
            let field = Field { name: field.name, kind, repeated: field.repeated };
            entries[at].1.fields.insert(number, field);
            proof {
                assert(entries@[at as int].1@ =~= before[at as int].1@.insert(number, field@));
                lemma_updated(before, entries@, at as int, name@);
            }
        } else {
            proof {
                assert(entries@[at as int].1@ =~= before[at as int].1@);
                lemma_updated(before, entries@, at as int, name@);
                assert(shown(before).insert(name@, shown(before)[name@]) =~= shown(before));
            }
        }
        self.entries = entries;
    }
}

impl Clone for Message {
    fn clone(&self) -> (out: Self)
        ensures
            out@ == self@,
    {
        Message { fields: self.fields.clone() }
    }
}

impl Clone for Messages {
    fn clone(&self) -> (out: Self)
        ensures
            out@ == self@,
    {
        proof {
            use_type_invariant(self);
        }
        let mut entries: Vec<(String, Message)> = Vec::new();
        let mut at: usize = 0;
        while at < self.entries.len()
            invariant
                at == entries@.len() <= self.entries@.len(),
                forall|i: int|
                    0 <= i < at ==> (#[trigger] entries@[i]).0@ == self.entries@[i].0@
                        && entries@[i].1@ == self.entries@[i].1@,
            decreases self.entries@.len() - at,
        {
            entries.push((self.entries[at].0.clone(), self.entries[at].1.clone()));
            at = at + 1;
        }
        proof {
            lemma_same_entries(self.entries@, entries@);
        }
        Messages { entries }
    }
}

/// Entries that say the same are the same messages.
proof fn lemma_same_entries(a: Seq<(String, Message)>, b: Seq<(String, Message)>)
    requires
        a.len() == b.len(),
        forall|i: int| 0 <= i < a.len() ==> (#[trigger] b[i]).0@ == a[i].0@ && b[i].1@ == a[i].1@,
    ensures
        shown(a) == shown(b),
        distinct(a) ==> distinct(b),
{
    assert forall|name: Seq<char>|
        #![trigger slot(a, name, 0)]
        #![trigger slot(b, name, 0)]
        0 <= slot(a, name, 0) && slot(b, name, 0) == slot(a, name, 0) by {
        lemma_slot(a, name, 0);
        lemma_slot_is(b, name, slot(a, name, 0));
    }
    assert(shown(a) =~= shown(b));
}

/// The names of the entries, in their order.
spec fn names_of(entries: Seq<(String, Message)>) -> Seq<Seq<char>> {
    entries.map_values(|entry: (String, Message)| entry.0@)
}

/// The names of the entries are those of the messages.
proof fn lemma_names(entries: Seq<(String, Message)>)
    requires
        distinct(entries),
    ensures
        names_of(entries).no_duplicates(),
        names_of(entries).to_set() == shown(entries).dom(),
        shown(entries).dom().finite(),
        shown(entries).dom().len() == entries.len(),
{
    let names = names_of(entries);
    assert forall|name: Seq<char>| #[trigger] names.to_set().contains(name)
        == shown(entries).dom().contains(name) by {
        lemma_slot(entries, name, 0);
        let at = slot(entries, name, 0);
        if at < entries.len() {
            assert(names[at] == name);
        }
        if names.contains(name) {
            let i = choose|i: int| 0 <= i < names.len() && names[i] == name;
            assert(entries[i].0@ == name);
        }
    }
    assert(names.to_set() =~= shown(entries).dom());
    vstd::seq_lib::seq_to_set_is_finite(names);
    names.unique_seq_to_set();
}

/// Entries that differ in the fields of one.
proof fn lemma_updated(
    before: Seq<(String, Message)>,
    after: Seq<(String, Message)>,
    at: int,
    name: Seq<char>,
)
    requires
        0 <= at < before.len() == after.len(),
        at == slot(before, name, 0),
        after[at].0@ == before[at].0@,
        forall|i: int| 0 <= i < before.len() && i != at ==> before[i] == after[i],
    ensures
        shown(after) == shown(before).insert(name, after[at].1@),
        distinct(before) ==> distinct(after),
{
    assert forall|i: int| 0 <= i < before.len() implies #[trigger] after[i].0@
        == before[i].0@ by {}
    assert forall|other: Seq<char>|
        #![trigger slot(after, other, 0)]
        #![trigger slot(before, other, 0)]
        0 <= slot(before, other, 0) && slot(after, other, 0) == slot(before, other, 0) by {
        lemma_slot(before, other, 0);
        lemma_slot_is(after, other, slot(before, other, 0));
    }
    lemma_slot(before, name, 0);
    assert forall|other: Seq<char>| other != name && shown(before).contains_key(
        other,
    ) implies slot(before, other, 0) != at by {
        lemma_slot(before, other, 0);
    }
    assert(shown(after) =~= shown(before).insert(name, after[at].1@));
}

/// The messages once `name` is one of them: without fields if it was none.
pub open spec fn declared(messages: MessagesModel, name: Seq<char>) -> MessagesModel {
    if messages.contains_key(name) {
        messages
    } else {
        messages.insert(name, MessageModel::empty())
    }
}

/// The messages once `name` is one of them and `number` is a field of it.
pub open spec fn with_field(
    messages: MessagesModel,
    name: Seq<char>,
    number: u32,
    field: FieldModel,
) -> MessagesModel {
    messages.insert(name, declared(messages, name)[name].insert(number, field))
}

/// A field once its type is known, where it was not: of a map that is the type of
/// the values.
pub open spec fn of_kind(field: FieldModel, kind: KindModel) -> FieldModel {
    FieldModel {
        kind: match field.kind {
            KindModel::MapOf(key, _) => KindModel::MapOf(key, Box::new(kind)),
            KindModel::Opaque => kind,
            known => known,
        },
        ..field
    }
}

/// The messages once the type of the field `number` of `name` is known, where
/// there is such a field.
pub open spec fn settled(
    messages: MessagesModel,
    name: Seq<char>,
    number: u32,
    kind: KindModel,
) -> MessagesModel {
    if messages.contains_key(name) && messages[name].contains_key(number) {
        messages.insert(
            name,
            messages[name].insert(number, of_kind(messages[name][number], kind)),
        )
    } else {
        messages
    }
}

/// The kind of a scalar type, by its name in the language.
pub open spec fn scalar_kind(name: Seq<char>) -> Option<KindModel> {
    if name == "int32"@ || name == "int64"@ || name == "uint32"@ || name == "uint64"@ || name
        == "sint32"@ || name == "sint64"@ || name == "bool"@ {
        Some(KindModel::Varint)
    } else if name == "fixed64"@ || name == "sfixed64"@ || name == "double"@ {
        Some(KindModel::Fixed64)
    } else if name == "fixed32"@ || name == "sfixed32"@ || name == "float"@ {
        Some(KindModel::Fixed32)
    } else if name == "string"@ {
        Some(KindModel::Text)
    } else if name == "bytes"@ {
        Some(KindModel::Bytes)
    } else {
        None
    }
}

/// `name` inside `outer`, a dot between them.
pub open spec fn dotted(outer: Seq<char>, name: Seq<char>) -> Seq<char> {
    outer.push('.') + name
}

/// The full name of `name` declared inside the messages `scope` of `package`,
/// the outermost first: all of them with dots between, an empty package left
/// out.
pub open spec fn full_name_of(package: Seq<char>, scope: Seq<Seq<char>>, name: Seq<char>) -> Seq<
    char,
>
    decreases scope.len(),
{
    if scope.len() > 0 {
        dotted(full_name_of(package, scope.drop_last(), scope.last()), name)
    } else if package.len() > 0 {
        dotted(package, name)
    } else {
        name
    }
}

/// The text after the dots it begins with.
pub open spec fn without_leading_dots(s: Seq<char>) -> Seq<char>
    decreases s.len(),
{
    if s.len() > 0 && s[0] == '.' {
        without_leading_dots(s.drop_first())
    } else {
        s
    }
}

/// What a full name stands for: a message, an enum, which travels as a varint,
/// or nothing the file defines.
pub open spec fn named(file: FileModel, full_name: Seq<char>) -> Option<KindModel> {
    if file.messages.contains_key(full_name) {
        Some(KindModel::Message(full_name))
    } else if file.enums.contains(full_name) {
        Some(KindModel::Varint)
    } else {
        None
    }
}

/// What `name` stands for in the nearest of the scopes from `depth` messages
/// deep outwards: as a name in that scope of the package, and last as a full
/// name itself.
pub open spec fn nearest(
    file: FileModel,
    scope: Seq<Seq<char>>,
    name: Seq<char>,
    depth: int,
) -> KindModel
    decreases depth + 1,
{
    if depth < 0 {
        match named(file, name) {
            Some(kind) => kind,
            None => KindModel::Opaque,
        }
    } else {
        match named(file, full_name_of(file.package, scope.take(depth), name)) {
            Some(kind) => kind,
            None => nearest(file, scope, name, depth - 1),
        }
    }
}

/// What a type written in the messages `scope` stands for: a scalar, else the
/// message or the enum of that name in the nearest scope, else a type the file
/// does not define. A dot before the name says nothing.
pub open spec fn resolved(file: FileModel, scope: Seq<Seq<char>>, written: Seq<char>) -> KindModel {
    match scalar_kind(written) {
        Some(kind) => kind,
        None => nearest(file, scope, without_leading_dots(written), scope.len() as int),
    }
}

/// The kind of the scalar type `name`, if it is one.
pub fn scalar(name: &str) -> (out: Option<Kind>)
    ensures
        match out {
            Some(kind) => scalar_kind(name@) == Some(kind@),
            None => scalar_kind(name@) is None,
        },
{
    if text::same(name, "int32") || text::same(name, "int64") || text::same(name, "uint32")
        || text::same(name, "uint64") || text::same(name, "sint32") || text::same(name, "sint64")
        || text::same(name, "bool") {
        Some(Kind::Varint)
    } else if text::same(name, "fixed64") || text::same(name, "sfixed64") || text::same(
        name,
        "double",
    ) {
        Some(Kind::Fixed64)
    } else if text::same(name, "fixed32") || text::same(name, "sfixed32") || text::same(
        name,
        "float",
    ) {
        Some(Kind::Fixed32)
    } else if text::same(name, "string") {
        Some(Kind::Text)
    } else if text::same(name, "bytes") {
        Some(Kind::Bytes)
    } else {
        None
    }
}

/// The full name of `name` declared inside the messages `scope` of `package`.
pub fn full_name(package: &str, scope: &[String], name: &str) -> (out: String)
    ensures
        out@ == full_name_of(package@, texts(scope@), name@),
{
    let ghost names = texts(scope@);
    let mut out: String = String::new();
    if !package.is_empty() {
        out.append(package);
        out.push('.');
    }
    let mut at: usize = 0;
    assert(names.take(0) == Seq::<Seq<char>>::empty());
    while at < scope.len()
        invariant
            at <= scope@.len(),
            names == texts(scope@),
            forall|last: Seq<char>| #[trigger]
                full_name_of(package@, names.take(at as int), last) == out@ + last,
        decreases scope@.len() - at,
    {
        let ghost before = out@;
        out.append(scope[at].as_str());
        out.push('.');
        at = at + 1;
        assert forall|last: Seq<char>| #[trigger]
            full_name_of(package@, names.take(at as int), last) == out@ + last by {
            assert(names.take(at as int).drop_last() == names.take(at - 1));
            assert(full_name_of(package@, names.take(at - 1), scope@[at - 1]@) == before
                + scope@[at - 1]@);
        }
    }
    assert(names.take(names.len() as int) == names);
    out.append(name);
    out
}

impl File {
    /// A file that defines nothing.
    pub fn new() -> (out: Self)
        ensures
            out@ == nothing(),
    {
        let out = File {
            package: String::new(),
            messages: Messages::new(),
            imports: Vec::new(),
            enums: Vec::new(),
        };
        assert(out@ =~= nothing());
        out
    }

    /// The message `full_name`, else the one of that name in the package, or
    /// `None`.
    pub fn message(&self, full_name: &str) -> (out: Option<&Message>)
        ensures
            match out {
                Some(message) => lookup(self@, full_name@) == Some(message@),
                None => lookup(self@, full_name@) is None,
            },
    {
        match self.messages.get(full_name) {
            Some(message) => Some(message),
            None => {
                let qualified = within(self.package.as_str(), full_name);
                self.messages.get(qualified.as_str())
            },
        }
    }

    /// Whether the file defines an enum `name`.
    fn has_enum(&self, name: &str) -> (answer: bool)
        ensures
            answer == self@.enums.contains(name@),
    {
        let mut at: usize = 0;
        while at < self.enums.len()
            invariant
                at <= self.enums@.len(),
                forall|i: int| 0 <= i < at ==> self.enums@[i]@ != name@,
            decreases self.enums@.len() - at,
        {
            if text::same(self.enums[at].as_str(), name) {
                assert(self@.enums[at as int] == name@);
                return true;
            }
            at = at + 1;
        }
        false
    }

    /// What the full name `name` stands for, if the file defines it.
    fn defined(&self, name: &str) -> (out: Option<Kind>)
        ensures
            match out {
                Some(kind) => named(self@, name@) == Some(kind@),
                None => named(self@, name@) is None,
            },
    {
        if self.messages.contains_key(name) {
            Some(Kind::Message(name.to_string()))
        } else if self.has_enum(name) {
            Some(Kind::Varint)
        } else {
            None
        }
    }

    /// `written` as seen from inside `scope` (the enclosing message names):
    /// a scalar, a known message or enum in the nearest scope, else opaque.
    pub fn resolve(&self, scope: &[String], written: &str) -> (kind: Kind)
        ensures
            kind@ == resolved(self@, texts(scope@), written@),
    {
        if let Some(kind) = scalar(written) {
            return kind;
        }
        let name = undotted(written);
        let mut depth: usize = scope.len();
        loop
            invariant
                depth <= scope@.len(),
                name@ == without_leading_dots(written@),
                resolved(self@, texts(scope@), written@) == nearest(
                    self@,
                    texts(scope@),
                    name@,
                    depth as int,
                ),
            decreases depth,
        {
            let outer = vstd::slice::slice_subrange(scope, 0, depth);
            assert(texts(outer@) == texts(scope@).take(depth as int));
            let candidate = full_name(self.package.as_str(), outer, name.as_str());
            if let Some(kind) = self.defined(candidate.as_str()) {
                return kind;
            }
            if depth == 0 {
                assert(nearest(self@, texts(scope@), name@, 0) == nearest(
                    self@,
                    texts(scope@),
                    name@,
                    -1,
                ));
                return match self.defined(name.as_str()) {
                    Some(kind) => kind,
                    None => Kind::Opaque,
                };
            }
            depth = depth - 1;
        }
    }
}

impl Clone for File {
    fn clone(&self) -> (out: Self)
        ensures
            out@ == self@,
    {
        let out = File {
            package: self.package.clone(),
            messages: self.messages.clone(),
            imports: self.imports.clone(),
            enums: self.enums.clone(),
        };
        assert(out@ =~= self@);
        out
    }
}

impl Default for File {
    fn default() -> (out: Self)
        ensures
            out@ == nothing(),
    {
        File::new()
    }
}

impl Default for Message {
    fn default() -> (out: Self)
        ensures
            out@ == MessageModel::empty(),
    {
        let out = Message { fields: HashMap::new() };
        assert(out@ =~= MessageModel::empty());
        out
    }
}

/// A file that defines nothing.
pub open spec fn nothing() -> FileModel {
    FileModel {
        package: Seq::empty(),
        messages: MessagesModel::empty(),
        imports: Seq::empty(),
        enums: Seq::empty(),
    }
}

/// The message that a name finds in a file: the one of that full name, else the
/// one of that name in the package.
pub open spec fn lookup(file: FileModel, name: Seq<char>) -> Option<MessageModel> {
    if file.messages.contains_key(name) {
        Some(file.messages[name])
    } else if file.messages.contains_key(dotted(file.package, name)) {
        Some(file.messages[dotted(file.package, name)])
    } else {
        None
    }
}

/// `name` inside `outer`, a dot between them.
pub(crate) fn within(outer: &str, name: &str) -> (out: String)
    ensures
        out@ == dotted(outer@, name@),
{
    let mut out: String = outer.to_string();
    out.push('.');
    out.append(name);
    out
}

/// `written` after the dots it begins with.
fn undotted(written: &str) -> (out: String)
    ensures
        out@ == without_leading_dots(written@),
{
    let chars = text::characters(written);
    let mut from: usize = 0;
    assert(written@.skip(0) == written@);
    while from < chars.len() && chars[from] == '.'
        invariant
            chars@ == written@,
            from <= chars.len(),
            without_leading_dots(written@.skip(from as int)) == without_leading_dots(written@),
        decreases chars.len() - from,
    {
        assert(written@.skip(from as int).drop_first() == written@.skip(from + 1));
        from = from + 1;
    }
    assert(written@.subrange(from as int, written@.len() as int) == written@.skip(from as int));
    text::string_of(&chars, from, chars.len())
}

} // verus!
