//! What a content contract is asked and what it answers: streams in,
//! descriptors, results and errors out.
use vstd::prelude::*;

verus! {

/// The name of a contract.
#[derive(Clone, Debug, PartialEq, Eq)]
pub struct ContractId(pub String);

/// What a contract says of itself.
#[derive(Clone, Debug, PartialEq, Eq)]
pub struct ContractDescriptor {
    pub id: ContractId,
    pub version: String,
    /// The media type of what it describes.
    pub representation: String,
}

/// Why a contract cannot be had.
#[derive(Clone, Debug, PartialEq, Eq)]
pub struct ContractError {
    pub message: String,
}

/// One way in which a stream is not what its contract says.
#[derive(Clone, Debug, PartialEq, Eq)]
pub struct ValidationIssue {
    pub code: String,
    pub message: String,
    /// The path to it inside the stream, where it has one.
    pub path: Option<String>,
}

/// Whether a stream is what its contract says, and in which ways it is not.
#[derive(Clone, Debug, PartialEq, Eq)]
pub struct ValidationResult {
    pub valid: bool,
    pub issues: Vec<ValidationIssue>,
}

/// Content, and the media type it came with, if any.
#[derive(Clone, Debug, PartialEq, Eq)]
pub struct Stream {
    pub bytes: Vec<u8>,
    pub media_type: Option<String>,
}

/// What a [`ContractDescriptor`] says.
pub struct DescriptorModel {
    pub id: Seq<char>,
    pub version: Seq<char>,
    pub representation: Seq<char>,
}

/// What a [`ValidationIssue`] says.
pub struct IssueModel {
    pub code: Seq<char>,
    pub message: Seq<char>,
    pub path: Option<Seq<char>>,
}

/// What a [`ValidationResult`] says.
#[verifier::ext_equal]
pub struct ResultModel {
    pub valid: bool,
    pub issues: Seq<IssueModel>,
}

/// The characters of a text, where there is one.
pub open spec fn optional_text(s: Option<String>) -> Option<Seq<char>> {
    match s {
        Some(s) => Some(s@),
        None => None,
    }
}

impl View for ContractDescriptor {
    type V = DescriptorModel;

    open spec fn view(&self) -> DescriptorModel {
        DescriptorModel {
            id: self.id.0@,
            version: self.version@,
            representation: self.representation@,
        }
    }
}

impl View for ValidationIssue {
    type V = IssueModel;

    open spec fn view(&self) -> IssueModel {
        IssueModel {
            code: self.code@,
            message: self.message@,
            path: optional_text(self.path),
        }
    }
}

impl View for ValidationResult {
    type V = ResultModel;

    open spec fn view(&self) -> ResultModel {
        ResultModel {
            valid: self.valid,
            issues: self.issues@.map_values(|issue: ValidationIssue| issue@),
        }
    }
}

impl Stream {
    /// A stream of `bytes`, of `media_type` where it is known.
    pub fn new(bytes: Vec<u8>, media_type: Option<String>) -> (out: Self)
        ensures
            out.bytes@ == bytes@,
            optional_text(out.media_type) == optional_text(media_type),
    {
        Stream { bytes, media_type }
    }
}

} // verus!
