//! What the registry reads out of a pushed manifest.
//!
//! Read permissively: fields outside the schema must round-trip, and referenced
//! blobs are deliberately not required to exist.
use vstd::prelude::*;

use crate::digest::{digest_text_round_trips, parsed_digest, Digest};
use crate::table::Table;

verus! {

/// The string that stands at a JSON pointer in some bytes, if they are JSON and a
/// string stands there.
pub uninterp spec fn json_text(bytes: Seq<u8>, pointer: Seq<char>) -> Option<Seq<char>>;

/// The members of the object that stands at a JSON pointer in some bytes, each
/// with its text if it is a string; `None` if the bytes are no JSON or no object
/// stands there.
pub uninterp spec fn json_members(bytes: Seq<u8>, pointer: Seq<char>) -> Option<
    Seq<(Seq<char>, Option<Seq<char>>)>,
>;

/// `serde_json::from_slice`, then `Value::pointer` and `Value::as_str`. The claim
/// is that what they give depends on the bytes and the pointer alone.
#[verifier::external_body]
fn text_at(bytes: &[u8], pointer: &str) -> (r: Option<String>)
    ensures
        r.deep_view() == json_text(bytes@, pointer@),
{
    let value: serde_json::Value = serde_json::from_slice(bytes).ok()?;
    value.pointer(pointer)?.as_str().map(str::to_owned)
}

/// `serde_json::from_slice`, then `Value::pointer`, `Value::as_object` and, for
/// each member, `Value::as_str`. The claim is that what they give depends on the
/// bytes and the pointer alone.
#[verifier::external_body]
fn members_at(bytes: &[u8], pointer: &str) -> (r: Option<Vec<(String, Option<String>)>>)
    ensures
        r.deep_view() == json_members(bytes@, pointer@),
{
    let value: serde_json::Value = serde_json::from_slice(bytes).ok()?;
    let members = value.pointer(pointer)?.as_object()?;
    Some(members.iter().map(|(k, v)| (k.clone(), v.as_str().map(str::to_owned))).collect())
}

/// What a manifest says of itself that the registry keeps.
#[derive(Debug)]
pub struct Described {
    pub subject: Option<Digest>,
    pub artifact_type: Option<String>,
    pub annotations: Table<String, String>,
}

pub struct Description {
    pub subject: Option<Digest>,
    pub artifact_type: Option<Seq<char>>,
    pub annotations: Map<Seq<char>, Seq<char>>,
}

impl View for Described {
    type V = Description;

    open spec fn view(&self) -> Description {
        Description {
            subject: self.subject,
            artifact_type: self.artifact_type.deep_view(),
            annotations: self.annotations@,
        }
    }
}

/// The members that are strings. A later member counts over an earlier one of the
/// same name.
pub open spec fn string_members(members: Seq<(Seq<char>, Option<Seq<char>>)>) -> Map<
    Seq<char>,
    Seq<char>,
>
    decreases members.len(),
{
    if members.len() == 0 {
        Map::empty()
    } else {
        let rest = string_members(members.drop_last());
        match members.last().1 {
            Some(text) => rest.insert(members.last().0, text),
            None => rest,
        }
    }
}

/// What a manifest says of itself, from the texts found in it.
pub open spec fn description(
    subject: Option<Seq<char>>,
    artifact_type: Option<Seq<char>>,
    config_type: Option<Seq<char>>,
    members: Option<Seq<(Seq<char>, Option<Seq<char>>)>>,
) -> Description {
    Description {
        subject: match subject {
            Some(text) => parsed_digest(text),
            None => None,
        },
        artifact_type: if artifact_type is Some {
            artifact_type
        } else {
            config_type
        },
        annotations: match members {
            Some(members) => string_members(members),
            None => Map::empty(),
        },
    }
}

/// Put together what a manifest says of itself.
///
/// A subject that is no digest counts as none. An image manifest that names no
/// artifact type has its config's media type for one; an index has no config and
/// so has none. An annotation that is not a string is passed over.
pub fn describe(
    subject: Option<String>,
    artifact_type: Option<String>,
    config_type: Option<String>,
    members: Option<Vec<(String, Option<String>)>>,
) -> (r: Described)
    ensures
        r@ == description(
            subject.deep_view(),
            artifact_type.deep_view(),
            config_type.deep_view(),
            members.deep_view(),
        ),
{
    let subject = match subject {
        Some(text) => match Digest::parse(text.as_str()) {
            Ok(d) => Some(d),
            Err(_) => None,
        },
        None => None,
    };
    let artifact_type = match artifact_type {
        Some(t) => Some(t),
        None => config_type,
    };
    let mut annotations: Table<String, String> = Table::new();
    if let Some(members) = members {
        let mut i: usize = 0;
        let ghost all = members.deep_view();
        while i < members.len()
            invariant
                i <= members@.len(),
                all == members.deep_view(),
                annotations@ == string_members(all.subrange(0, i as int)),
            decreases members@.len() - i,
        {
            proof {
                let now = all.subrange(0, i + 1);
                assert(now.drop_last() =~= all.subrange(0, i as int));
                assert(now.last() == members@[i as int].deep_view());
            }
            if let Some(text) = &members[i].1 {
                annotations.insert(members[i].0.as_str().to_owned(), text.as_str().to_owned());
            }
            i = i + 1;
        }
        assert(all.subrange(0, i as int) =~= all);
    }
    Described { subject, artifact_type, annotations }
}

/// What a manifest's bytes say of it.
pub open spec fn description_of(body: Seq<u8>) -> Description {
    description(
        json_text(body, "/subject/digest"@),
        json_text(body, "/artifactType"@),
        json_text(body, "/config/mediaType"@),
        json_members(body, "/annotations"@),
    )
}

/// Read what a manifest says of itself.
pub fn read_manifest(body: &[u8]) -> (r: Described)
    ensures
        r@ == description_of(body@),
{
    describe(
        text_at(body, "/subject/digest"),
        text_at(body, "/artifactType"),
        text_at(body, "/config/mediaType"),
        members_at(body, "/annotations"),
    )
}

/// A manifest's subject is the digest that it names, its type the one it names or else
/// its config's, and each annotation that is a string is kept under its key, the last of
/// each key; nothing else is.
pub proof fn a_manifest_is_described_by_what_it_says(
    subject: Option<Seq<char>>,
    artifact_type: Option<Seq<char>>,
    config_type: Option<Seq<char>>,
    members: Seq<(Seq<char>, Option<Seq<char>>)>,
    d: Digest,
    i: int,
    key: Seq<char>,
)
    ensures
        ({
            let said = description(subject, artifact_type, config_type, Some(members));
            &&& subject is None ==> said.subject is None
            &&& subject == Some(d.text()) ==> said.subject == Some(d)
            &&& artifact_type is Some ==> said.artifact_type == artifact_type
            &&& artifact_type is None ==> said.artifact_type == config_type
            &&& 0 <= i < members.len() && members[i].1 is Some && (forall|k: int|
                i < k < members.len() ==> (#[trigger] members[k]).0 != members[i].0)
                ==> said.annotations.contains_key(members[i].0) && said.annotations[members[i].0]
                == members[i].1->0
            &&& (forall|k: int|
                0 <= k < members.len() ==> (#[trigger] members[k]).0 != key || members[k].1 is None)
                ==> !said.annotations.contains_key(key)
        }),
{
    digest_text_round_trips(d);
    lemma_string_members(members, i, key);
}

proof fn lemma_string_members(
    members: Seq<(Seq<char>, Option<Seq<char>>)>,
    i: int,
    key: Seq<char>,
)
    ensures
        0 <= i < members.len() && members[i].1 is Some && (forall|k: int|
            i < k < members.len() ==> (#[trigger] members[k]).0 != members[i].0) ==> string_members(
            members,
        ).contains_key(members[i].0) && string_members(members)[members[i].0] == members[i].1->0,
        (forall|k: int|
            0 <= k < members.len() ==> (#[trigger] members[k]).0 != key || members[k].1 is None)
            ==> !string_members(members).contains_key(key),
    decreases members.len(),
{
    if members.len() > 0 {
        let front = members.drop_last();
        assert(forall|k: int| 0 <= k < front.len() ==> front[k] == members[k]);
        lemma_string_members(front, i, key);
        assert(members.last() == members[members.len() - 1]);
    }
}

} // verus!
