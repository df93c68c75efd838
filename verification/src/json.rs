//! Reading of JSON objects, carried out by the `serde_json` crate.

use vstd::prelude::*;

verus! {

/// The error with which `serde_json` refuses a text.
#[verifier::external_type_specification]
#[verifier::external_body]
pub struct ExJsonError(serde_json::Error);

/// One member of a JSON object: its name and, if its value is a string, that string.
pub type Member = (String, Option<String>);

/// The mathematical value of a member.
pub type MemberView = (Seq<char>, Option<Seq<char>>);

/// The value of one member.
pub open spec fn member_view(m: Member) -> MemberView {
    (
        m.0@,
        match m.1 {
            Some(s) => Some(s@),
            None => None,
        },
    )
}

/// The values of a vector of members.
pub open spec fn member_views(v: Seq<Member>) -> Seq<MemberView> {
    Seq::new(v.len(), |i: int| member_view(v[i]))
}

/// The values of the members of a document, if it is an object.
pub open spec fn document_view(d: Option<Vec<Member>>) -> Option<Seq<MemberView>> {
    match d {
        Some(v) => Some(member_views(v@)),
        None => None,
    }
}

/// What a JSON text holds. The outer `None` stands for a text that is not JSON, the
/// inner one for a value that is not an object. For an object the result lists its
/// members, each name once, in the order in which the parsed object iterates.
pub uninterp spec fn json_members(text: Seq<char>) -> Option<Option<Seq<MemberView>>>;

/// Parses `text` with `serde_json::from_str` into a `serde_json::Value`, and, if
/// `Value::as_object` gives an object, walks its members, taking of each the name and
/// what `Value::as_str` gives for its value. Not proved: that the result is the one
/// function of the text that `json_members` names.
#[verifier::external_body]
pub(crate) fn parse_members(text: &str) -> (res: Result<Option<Vec<Member>>, serde_json::Error>)
    ensures
        res is Ok <==> json_members(text@) is Some,
        res matches Ok(d) ==> document_view(d) == json_members(text@).unwrap(),
{
    let value: serde_json::Value = serde_json::from_str(text)?;
    Ok(
        value.as_object().map(
            |object|
                object.iter().map(|(k, v)| (k.clone(), v.as_str().map(|s| s.to_string()))).collect(),
        ),
    )
}

/// The message of a `serde_json::Error`, as its `Display` writes it. Nothing is
/// claimed of the text.
#[verifier::external_body]
pub(crate) fn error_message(e: &serde_json::Error) -> (m: String) {
    e.to_string()
}

} // verus!
