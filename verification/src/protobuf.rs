//! The protobuf contract, and the factory that loads it.
use crate::contract;
use crate::contract::{
    ContractDescriptor, ContractError, ContractId, DescriptorModel, IssueModel, ResultModel, Stream,
    ValidationIssue, ValidationResult,
};
use crate::grammar;
use crate::proto;
use crate::proto::{File, FileModel};
use crate::reader;
use crate::text;
use crate::wire;
use crate::wire::Departure;
use vstd::prelude::*;
use vstd::string::*;

verus! {

/// The protobuf contract, bare or bound to a message type.
pub struct Protobuf {
    descriptor: ContractDescriptor,
    bound: Option<(File, String)>,
}

/// Loads the contract a Location names: an empty reference is the bare
/// contract, anything else `path/to/file.proto#package.Message`.
pub struct ProtobufFactory;

/// What a reference asks for.
#[derive(Clone, Debug, PartialEq, Eq)]
pub enum Reference {
    /// The bare contract.
    Bare,
    /// A message type of the file at `path`.
    Message { path: String, message: String },
}

/// The message type that a contract is bound to: the file, and the full name of
/// the message.
pub type Binding = Option<(FileModel, Seq<char>)>;

/// What the contract of that name says of itself.
pub open spec fn description(id: Seq<char>) -> DescriptorModel {
    DescriptorModel { id, version: "1"@, representation: "application/protobuf"@ }
}

/// The full name that a name has in a file: itself where it is one, else the one
/// in the package.
pub open spec fn bound_name(file: FileModel, message: Seq<char>) -> Option<Seq<char>> {
    if file.messages.contains_key(message) {
        Some(message)
    } else if file.messages.contains_key(proto::dotted(file.package, message)) {
        Some(proto::dotted(file.package, message))
    } else {
        None
    }
}

/// The media type without its parameters.
pub open spec fn base_type(media_type: Seq<char>) -> Seq<char> {
    text::trim(media_type.take(text::index_of(media_type, ';', 0)))
}

/// Whether a media type, if there is one, is that of protobuf.
pub open spec fn marked(media_type: Option<Seq<char>>) -> bool {
    match media_type {
        None => false,
        Some(media_type) => {
            ||| text::same_but_case(base_type(media_type), "application/protobuf"@)
            ||| text::same_but_case(base_type(media_type), "application/x-protobuf"@)
            ||| text::same_but_case(base_type(media_type), "application/vnd.google.protobuf"@)
        },
    }
}

/// A departure as an issue: what is wrong, and the path to it. What is wrong among
/// packed values is told with the field they are packed in.
pub open spec fn issue_of(departure: Departure) -> IssueModel {
    IssueModel {
        code: "malformed"@,
        message: if departure.packed {
            departure.text()
        } else {
            departure.what
        },
        path: Some(departure.path),
    }
}

/// What keeps bytes from being what a contract says, if anything does: of a bare
/// contract that they are no fields, of a bound one that they are not its message.
pub open spec fn fault(binding: Binding, bytes: Seq<u8>) -> Option<IssueModel> {
    match binding {
        None => match reader::stop_from(bytes, 0) {
            Some(stop) => Some(
                IssueModel { code: "malformed"@, message: wire::stop_text(stop), path: None },
            ),
            None => None,
        },
        Some((file, name)) => if file.messages.contains_key(name) {
            match wire::departure(bytes, file.messages[name], file.messages, name) {
                Some(departure) => Some(issue_of(departure)),
                None => None,
            }
        } else {
            Some(
                IssueModel {
                    code: "malformed"@,
                    message: "the schema lost message "@ + name,
                    path: None,
                },
            )
        },
    }
}

/// What validation says of bytes.
pub open spec fn verdict(binding: Binding, bytes: Seq<u8>) -> ResultModel {
    match fault(binding, bytes) {
        None => ResultModel { valid: true, issues: Seq::empty() },
        Some(issue) => ResultModel { valid: false, issues: seq![issue] },
    }
}

/// The descriptor of the contract `id`.
fn descriptor(id: &str) -> (out: ContractDescriptor)
    ensures
        out@ == description(id@),
{
    ContractDescriptor {
        id: ContractId(id.to_string()),
        version: "1".to_string(),
        representation: "application/protobuf".to_string(),
    }
}

/// Whether `a` and `b` are one when the case of ASCII letters is not looked at.
fn same_but_case(a: &str, b: &str) -> (answer: bool)
    ensures
        answer == text::same_but_case(a@, b@),
{
    let a_chars = text::characters(a);
    let b_chars = text::characters(b);
    if a_chars.len() != b_chars.len() {
        return false;
    }
    let mut at: usize = 0;
    while at < a_chars.len()
        invariant
            a_chars@ == a@,
            b_chars@ == b@,
            a@.len() == b@.len(),
            at <= a_chars.len(),
            forall|i: int| 0 <= i < at ==> text::lower(#[trigger] a@[i]) == text::lower(b@[i]),
        decreases a_chars.len() - at,
    {
        if text::to_lower(a_chars[at]) != text::to_lower(b_chars[at]) {
            return false;
        }
        at = at + 1;
    }
    true
}

/// An issue with a stream.
fn issue(message: String, path: Option<String>) -> (out: ValidationIssue)
    ensures
        out@ == (IssueModel {
            code: "malformed"@,
            message: message@,
            path: contract::optional_text(path),
        }),
{
    ValidationIssue { code: "malformed".to_string(), message, path }
}

impl Protobuf {
    /// The message type that the contract is bound to, if it is to one.
    pub closed spec fn binding(&self) -> Binding {
        match self.bound {
            Some((file, name)) => Some((file@, name@)),
            None => None,
        }
    }

    /// What the contract says of itself.
    pub closed spec fn described(&self) -> DescriptorModel {
        self.descriptor@
    }

    /// Whether the message that the contract is bound to is one of its file, and
    /// the contract is named after it.
    pub open spec fn wf(&self) -> bool {
        match self.binding() {
            None => self.described() == description("protobuf"@),
            Some((file, name)) => {
                &&& file.messages.contains_key(name)
                &&& self.described() == description("protobuf:"@ + name)
            },
        }
    }

    /// Sound wire format, of any message.
    pub fn new() -> (out: Self)
        ensures
            out.binding() is None,
            out.described() == description("protobuf"@),
            out.wf(),
    {
        Protobuf { descriptor: descriptor("protobuf"), bound: None }
    }

    /// Every Stream a `message` of `file`.
    ///
    /// # Errors
    /// A message `file` does not define.
    pub fn of(file: File, message: &str) -> (out: Result<Self, ContractError>)
        ensures
            match out {
                Ok(contract) => {
                    &&& bound_name(file@, message@) matches Some(name)
                    &&& contract.binding() == Some((file@, name))
                    &&& contract.described() == description("protobuf:"@ + name)
                    &&& contract.wf()
                },
                Err(error) => {
                    &&& bound_name(file@, message@) is None
                    &&& error.message@ == "the file does not define message "@ + message@
                },
            },
    {
        let full_name = if file.messages.contains_key(message) {
            message.to_string()
        } else {
            let qualified = proto::within(file.package.as_str(), message);
            if file.messages.contains_key(qualified.as_str()) {
                qualified
            } else {
                let mut why: String = "the file does not define message ".to_string();
                why.append(message);
                return Err(ContractError { message: why });
            }
        };
        let mut id: String = "protobuf:".to_string();
        id.append(full_name.as_str());
        Ok(Protobuf { descriptor: descriptor(id.as_str()), bound: Some((file, full_name)) })
    }

    /// Whether a message type is bound.
    pub fn is_bound(&self) -> (answer: bool)
        ensures
            answer == (self.binding() is Some),
    {
        self.bound.is_some()
    }

    /// What the contract says of itself.
    pub fn descriptor(&self) -> (out: &ContractDescriptor)
        ensures
            out@ == self.described(),
    {
        &self.descriptor
    }

    /// Wire format has no magic; the media type is the only mark it carries.
    ///
    /// # Errors
    /// None.
    pub fn identify(&self, stream: &Stream) -> (out: Result<bool, ContractError>)
        ensures
            out == Ok::<bool, ContractError>(marked(contract::optional_text(stream.media_type))),
    {
        match &stream.media_type {
            None => Ok(false),
            Some(media_type) => {
                let chars = text::characters(media_type.as_str());
                let end: usize = text::find(&chars, ';');
                assert(media_type@.take(end as int) == media_type@.subrange(0, end as int));
                let base = text::trimmed(text::string_of(&chars, 0, end).as_str());
                Ok(
                    same_but_case(base.as_str(), "application/protobuf") || same_but_case(
                        base.as_str(),
                        "application/x-protobuf",
                    ) || same_but_case(base.as_str(), "application/vnd.google.protobuf"),
                )
            },
        }
    }

    /// Whether `stream` is what the contract says, and where it is not.
    ///
    /// # Errors
    /// None: what is wrong with the stream is an issue of the result.
    pub fn validate(&self, stream: &Stream) -> (out: Result<ValidationResult, ContractError>)
        ensures
            out matches Ok(result) && result@ == verdict(self.binding(), stream.bytes@),
    {
        let found = match &self.bound {
            Some((file, name)) => match file.messages.get(name.as_str()) {
                Some(message) => match wire::first_departure(
                    stream.bytes.as_slice(),
                    message,
                    file,
                    name.as_str(),
                ) {
                    Some(misfit) => {
                        let message = if misfit.packed {
                            misfit.text()
                        } else {
                            misfit.what
                        };
                        Some(issue(message, Some(misfit.path)))
                    },
                    None => None,
                },
                None => {
                    let mut why: String = "the schema lost message ".to_string();
                    why.append(name.as_str());
                    Some(issue(why, None))
                },
            },
            None => match wire::walk_bare(stream.bytes.as_slice()) {
                Ok(()) => None,
                Err(why) => Some(issue(why, None)),
            },
        };
        let mut issues: Vec<ValidationIssue> = Vec::new();
        let valid = match found {
            None => true,
            Some(issue) => {
                issues.push(issue);
                false
            },
        };
        let result = ValidationResult { valid, issues };
        assert(result@ =~= verdict(self.binding(), stream.bytes@));
        Ok(result)
    }
}

impl Default for Protobuf {
    fn default() -> (out: Self)
        ensures
            out.binding() is None,
            out.described() == description("protobuf"@),
            out.wf(),
    {
        Self::new()
    }
}

/// What a reference asks for: `None` for the bare contract, else the path of a
/// file and the name of a message, which the first `#` parts; or why it asks for
/// nothing.
pub open spec fn asked(reference: Seq<char>) -> Result<Option<(Seq<char>, Seq<char>)>, Seq<char>> {
    let reference = text::trim(reference);
    let mark = text::index_of(reference, '#', 0);
    if reference.len() == 0 {
        Ok(None)
    } else if mark < reference.len() {
        Ok(Some((reference.take(mark), reference.skip(mark + 1))))
    } else {
        Err(text::debug_text(reference) + " is not file.proto#package.Message"@)
    }
}

/// The contract that the file at `path`, read or not, gives for `message`: what
/// it is bound to, or why there is none.
pub open spec fn loaded(
    path: Seq<char>,
    message: Seq<char>,
    read: Result<Seq<char>, Seq<char>>,
) -> Result<(FileModel, Seq<char>), Seq<char>> {
    match read {
        Err(why) => Err("cannot read "@ + path + ": "@ + why),
        Ok(source) => match grammar::file_of(source) {
            Err(why) => Err(path + " is not a proto file: "@ + why),
            Ok(file) => match bound_name(file, message) {
                Some(name) => Ok((file, name)),
                None => Err("the file does not define message "@ + message),
            },
        },
    }
}

/// The characters of a text, or of why there is none.
pub open spec fn read_model(read: Result<String, String>) -> Result<Seq<char>, Seq<char>> {
    match read {
        Ok(source) => Ok(source@),
        Err(why) => Err(why@),
    }
}

impl ProtobufFactory {
    /// The technology the factory loads contracts of.
    pub fn technology(&self) -> (out: &'static str)
        ensures
            out@ == "protobuf"@,
    {
        "protobuf"
    }

    /// What `reference` asks for.
    ///
    /// # Errors
    /// A reference that is neither empty nor has a `#`.
    pub fn locate(&self, reference: &str) -> (out: Result<Reference, ContractError>)
        ensures
            match out {
                Ok(Reference::Bare) => asked(reference@) == Ok::<
                    Option<(Seq<char>, Seq<char>)>,
                    Seq<char>,
                >(None),
                Ok(Reference::Message { path, message }) => asked(reference@) == Ok::<
                    Option<(Seq<char>, Seq<char>)>,
                    Seq<char>,
                >(Some((path@, message@))),
                Err(error) => asked(reference@) == Err::<
                    Option<(Seq<char>, Seq<char>)>,
                    Seq<char>,
                >(error.message@),
            },
    {
        let reference = text::trimmed(reference);
        if reference.as_str().is_empty() {
            return Ok(Reference::Bare);
        }
        let chars = text::characters(reference.as_str());
        let mark: usize = text::find(&chars, '#');
        if mark == chars.len() {
            let mut why: String = text::quoted(reference.as_str());
            why.append(" is not file.proto#package.Message");
            return Err(ContractError { message: why });
        }
        assert(reference@.take(mark as int) == reference@.subrange(0, mark as int));
        assert(reference@.skip(mark + 1) == reference@.subrange(
            mark + 1,
            reference@.len() as int,
        ));
        Ok(
            Reference::Message {
                path: text::string_of(&chars, 0, mark),
                message: text::string_of(&chars, mark + 1, chars.len()),
            },
        )
    }

    /// The contract of `message` in the file at `path`, where `read` is what the
    /// file says or why it cannot be read.
    ///
    /// # Errors
    /// A file that cannot be read or is no proto file, and a message it does not
    /// define.
    pub fn bind(&self, path: &str, message: &str, read: Result<String, String>) -> (out: Result<
        Protobuf,
        ContractError,
    >)
        ensures
            match out {
                Ok(contract) => {
                    &&& loaded(path@, message@, read_model(read)) matches Ok((file, name))
                    &&& contract.binding() == Some((file, name))
                    &&& contract.described() == description("protobuf:"@ + name)
                    &&& contract.wf()
                },
                Err(error) => loaded(path@, message@, read_model(read)) == Err::<
                    (FileModel, Seq<char>),
                    Seq<char>,
                >(error.message@),
            },
    {
        let source = match read {
            Ok(source) => source,
            Err(error) => {
                let mut why: String = "cannot read ".to_string();
                why.append(path);
                why.append(": ");
                why.append(error.as_str());
                return Err(ContractError { message: why });
            },
        };
        match File::parse(source.as_str()) {
            Err(error) => {
                let mut why: String = path.to_string();
                why.append(" is not a proto file: ");
                why.append(error.as_str());
                Err(ContractError { message: why })
            },
            Ok(file) => Protobuf::of(file, message),
        }
    }
}

} // verus!
