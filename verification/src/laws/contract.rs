//! What holds of contracts, and of the references that name them.
use crate::contract::IssueModel;
use crate::grammar;
use crate::laws::walk;
use crate::proto;
use crate::proto::FileModel;
use crate::protobuf;
use crate::protobuf::{Binding, Protobuf};
use crate::reader;
use crate::text;
use crate::wire;
use vstd::prelude::*;

verus! {

/// A stream is valid exactly when there is no issue with it, and there is never
/// more than one.
pub proof fn law_valid_means_no_issue(binding: Binding, bytes: Seq<u8>)
    ensures
        protobuf::verdict(binding, bytes).valid <==> protobuf::verdict(binding, bytes).issues.len()
            == 0,
        protobuf::verdict(binding, bytes).issues.len() <= 1,
{
}

/// What a bare contract finds has no path.
pub proof fn law_bare_issue_has_no_path(bytes: Seq<u8>)
    ensures
        forall|i: int|
            0 <= i < protobuf::verdict(None, bytes).issues.len() ==> (
            #[trigger] protobuf::verdict(None, bytes).issues[i]).path is None,
{
}

/// What a contract that is bound to a message finds valid, the bare contract does
/// too.
pub proof fn law_bound_contract_is_stricter(file: FileModel, name: Seq<char>, bytes: Seq<u8>)
    requires
        protobuf::verdict(Some((file, name)), bytes).valid,
    ensures
        protobuf::verdict(None, bytes).valid,
{
    walk::law_path_does_not_decide(bytes, file.messages[name], file.messages, name);
    walk::law_a_message_is_sound(bytes, file.messages[name], file.messages);
}

/// The message that a contract is bound to is the one that its name finds in the
/// file, and there is such a contract exactly when the name finds one.
pub proof fn law_bound_message_is_the_one_found(file: FileModel, message: Seq<char>)
    ensures
        protobuf::bound_name(file, message) is Some <==> proto::lookup(file, message) is Some,
        protobuf::bound_name(file, message) matches Some(name) ==> file.messages.contains_key(name)
            && proto::lookup(file, message) == Some(file.messages[name]),
{
}

/// A contract that is bound to a message has it: a stream is valid exactly when it
/// is a message of that type.
pub proof fn law_bound_contract_has_its_message(contract: Protobuf, bytes: Seq<u8>)
    requires
        contract.wf(),
    ensures
        contract.binding() matches Some((file, name)) ==> {
            &&& file.messages.contains_key(name)
            &&& protobuf::verdict(contract.binding(), bytes).valid <==> walk::conforms(
                bytes,
                file.messages[name],
                file.messages,
            )
        },
        contract.binding() is None ==> (protobuf::verdict(contract.binding(), bytes).valid
            <==> walk::sound(bytes)),
{
    if let Some((file, name)) = contract.binding() {
        walk::law_path_does_not_decide(bytes, file.messages[name], file.messages, name);
    }
}

/// A departure from a bound contract is named with its path: that is the path of the
/// issue, and it is the full name of the message or leads on from it after a dot.
/// The message of the issue is what is wrong, among packed values with the field
/// they are packed in.
pub proof fn law_departure_is_named_with_its_path(
    file: FileModel,
    name: Seq<char>,
    bytes: Seq<u8>,
)
    requires
        file.messages.contains_key(name),
    ensures
        wire::departure(bytes, file.messages[name], file.messages, name) matches Some(departure)
            ==> {
            &&& protobuf::verdict(Some((file, name)), bytes).issues == seq![
                IssueModel {
                    code: "malformed"@,
                    message: if departure.packed {
                        departure.what + " in packed "@ + departure.path
                    } else {
                        departure.what
                    },
                    path: Some(departure.path),
                },
            ]
            &&& walk::leads_on(name, departure.path)
        },
{
    walk::law_departure_is_inside(bytes, file.messages[name], file.messages, name);
}

/// What parameters a media type has does not decide whether it is protobuf's.
pub proof fn law_parameters_do_not_decide(media_type: Seq<char>, parameters: Seq<char>)
    requires
        !media_type.contains(';'),
    ensures
        protobuf::marked(Some(media_type.push(';') + parameters)) == protobuf::marked(
            Some(media_type),
        ),
{
    let whole = media_type.push(';') + parameters;
    text::lemma_index_of(media_type, ';', 0);
    text::lemma_index_of(whole, ';', 0);
    let n = media_type.len() as int;
    let i = text::index_of(media_type, ';', 0);
    let j = text::index_of(whole, ';', 0);
    assert(whole[n] == ';');
    if i < n {
        assert(media_type[i] == ';');
    }
    if j < n {
        assert(whole[j] == media_type[j]);
    }
    assert(whole.take(n) == media_type.take(n));
}

proof fn lemma_case_trim_start(a: Seq<char>, b: Seq<char>)
    requires
        text::same_but_case(a, b),
    ensures
        text::same_but_case(text::trim_start(a), text::trim_start(b)),
    decreases a.len(),
{
    if a.len() > 0 {
        assert(text::lower(a[0]) == text::lower(b[0]));
        assert forall|i: int| 0 <= i < a.len() - 1 implies text::lower(
            #[trigger] a.drop_first()[i],
        ) == text::lower(b.drop_first()[i]) by {
            assert(text::lower(a[i + 1]) == text::lower(b[i + 1]));
        }
        lemma_case_trim_start(a.drop_first(), b.drop_first());
    }
}

proof fn lemma_case_trim_end(a: Seq<char>, b: Seq<char>)
    requires
        text::same_but_case(a, b),
    ensures
        text::same_but_case(text::trim_end(a), text::trim_end(b)),
    decreases a.len(),
{
    if a.len() > 0 {
        assert(text::lower(a[a.len() - 1]) == text::lower(b[b.len() - 1]));
        assert forall|i: int| 0 <= i < a.len() - 1 implies text::lower(
            #[trigger] a.drop_last()[i],
        ) == text::lower(b.drop_last()[i]) by {
            assert(text::lower(a[i]) == text::lower(b[i]));
        }
        lemma_case_trim_end(a.drop_last(), b.drop_last());
    }
}

proof fn lemma_case_index_of(a: Seq<char>, b: Seq<char>, at: int)
    requires
        text::same_but_case(a, b),
        0 <= at <= a.len(),
    ensures
        text::index_of(a, ';', at) == text::index_of(b, ';', at),
    decreases a.len() - at,
{
    if at < a.len() {
        assert(text::lower(a[at]) == text::lower(b[at]));
        lemma_case_index_of(a, b, at + 1);
    }
}

proof fn lemma_case_joins(a: Seq<char>, b: Seq<char>, c: Seq<char>)
    requires
        text::same_but_case(a, b),
    ensures
        text::same_but_case(a, c) == text::same_but_case(b, c),
{
    assert forall|i: int| 0 <= i < a.len() implies text::lower(#[trigger] a[i]) == text::lower(
        b[i],
    ) by {}
    if text::same_but_case(a, c) {
        assert forall|i: int| 0 <= i < b.len() implies text::lower(#[trigger] b[i]) == text::lower(
            c[i],
        ) by {
            assert(text::lower(a[i]) == text::lower(c[i]));
        }
    }
    if text::same_but_case(b, c) {
        assert forall|i: int| 0 <= i < a.len() implies text::lower(#[trigger] a[i]) == text::lower(
            c[i],
        ) by {
            assert(text::lower(b[i]) == text::lower(c[i]));
        }
    }
}

/// The case of the ASCII letters of a media type does not decide whether it is
/// protobuf's.
pub proof fn law_case_does_not_decide(media_type: Seq<char>, other: Seq<char>)
    requires
        text::same_but_case(media_type, other),
    ensures
        protobuf::marked(Some(media_type)) == protobuf::marked(Some(other)),
{
    let n = text::index_of(media_type, ';', 0);
    text::lemma_index_of(media_type, ';', 0);
    lemma_case_index_of(media_type, other, 0);
    let a = media_type.take(n);
    let b = other.take(n);
    assert forall|i: int| 0 <= i < n implies text::lower(#[trigger] a[i]) == text::lower(
        b[i],
    ) by {
        assert(text::lower(media_type[i]) == text::lower(other[i]));
    }
    lemma_case_trim_start(a, b);
    lemma_case_trim_end(text::trim_start(a), text::trim_start(b));
    let x = protobuf::base_type(media_type);
    let y = protobuf::base_type(other);
    lemma_case_joins(x, y, "application/protobuf"@);
    lemma_case_joins(x, y, "application/x-protobuf"@);
    lemma_case_joins(x, y, "application/vnd.google.protobuf"@);
}

proof fn lemma_trim_start_push(s: Seq<char>, c: char)
    requires
        text::whitespace(c),
    ensures
        text::trim_end(text::trim_start(s.push(c))) == text::trim_end(text::trim_start(s)),
    decreases s.len(),
{
    if s.len() > 0 && text::whitespace(s[0]) {
        assert(s.push(c).drop_first() == s.drop_first().push(c));
        lemma_trim_start_push(s.drop_first(), c);
    } else if s.len() > 0 {
        assert(s.push(c)[0] == s[0]);
        assert(s.push(c).drop_last() == s);
    } else {
        assert(s.push(c).drop_first() == s);
    }
}

/// White space around a reference says nothing.
pub proof fn law_space_around_a_reference_says_nothing(c: char, reference: Seq<char>)
    requires
        text::whitespace(c),
    ensures
        protobuf::asked(seq![c] + reference) == protobuf::asked(reference),
        protobuf::asked(reference.push(c)) == protobuf::asked(reference),
{
    assert((seq![c] + reference).drop_first() == reference);
    lemma_trim_start_push(reference, c);
}

/// A reference is the path of a file and the name of a message with a `#` between,
/// and asks for these two, where the path has no `#` and no white space is around.
pub proof fn law_reference_asks_for_its_parts(path: Seq<char>, message: Seq<char>)
    requires
        !path.contains('#'),
        text::trim(path.push('#') + message) == path.push('#') + message,
    ensures
        protobuf::asked(path.push('#') + message) == Ok::<
            Option<(Seq<char>, Seq<char>)>,
            Seq<char>,
        >(Some((path, message))),
{
    let whole = path.push('#') + message;
    let n = path.len() as int;
    text::lemma_index_of(whole, '#', 0);
    let mark = text::index_of(whole, '#', 0);
    assert(whole[n] == '#');
    if mark < n {
        assert(whole[mark] == path[mark]);
    }
    assert(whole.take(n) == path);
    assert(whole.skip(n + 1) == message);
}

/// What a bare contract tells of bytes: nothing where they are sound wire format, else
/// why they are not and at which byte, and no path.
pub proof fn law_what_a_bare_contract_tells(bytes: Seq<u8>)
    ensures
        match reader::stop_from(bytes, 0) {
            None => {
                &&& protobuf::verdict(None, bytes).valid
                &&& protobuf::verdict(None, bytes).issues.len() == 0
            },
            Some((reason, at)) => {
                &&& !protobuf::verdict(None, bytes).valid
                &&& protobuf::verdict(None, bytes).issues == seq![
                    IssueModel {
                        code: "malformed"@,
                        message: reader::reason_text(reason) + " (byte "@ + text::decimal(
                            at as nat,
                        ) + ")"@,
                        path: None,
                    },
                ]
            },
        },
{
}

/// What a contract says of itself: the name it is given, and the version and the media
/// type that every contract of protobuf has.
pub proof fn law_what_a_contract_says_of_itself(contract: Protobuf)
    requires
        contract.wf(),
    ensures
        contract.described().id == (match contract.binding() {
            None => "protobuf"@,
            Some((_, name)) => "protobuf:"@ + name,
        }),
        contract.described().version == "1"@,
        contract.described().representation == "application/protobuf"@,
{
}

/// What a file gives for a reference: a contract for the message that its name finds in
/// the file that the text is; else why the file cannot be read, or is none, each with
/// its path, or that it does not define the message.
pub proof fn law_what_a_file_gives(
    path: Seq<char>,
    message: Seq<char>,
    read: Result<Seq<char>, Seq<char>>,
)
    ensures
        match read {
            Err(why) => protobuf::loaded(path, message, read) == Err::<
                (FileModel, Seq<char>),
                Seq<char>,
            >("cannot read "@ + path + ": "@ + why),
            Ok(source) => match grammar::file_of(source) {
                Err(why) => protobuf::loaded(path, message, read) == Err::<
                    (FileModel, Seq<char>),
                    Seq<char>,
                >(path + " is not a proto file: "@ + why),
                Ok(file) => if proto::lookup(file, message) is None {
                    protobuf::loaded(path, message, read) == Err::<
                        (FileModel, Seq<char>),
                        Seq<char>,
                    >("the file does not define message "@ + message)
                } else {
                    protobuf::loaded(path, message, read) matches Ok((given, name)) && {
                        &&& given == file
                        &&& Some(file.messages[name]) == proto::lookup(file, message)
                    }
                },
            },
        },
{
}

} // verus!
