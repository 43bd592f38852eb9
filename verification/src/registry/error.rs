//! Failures that carry enough structure for the HTTP layer to pick a code.
//!
//! Every failure names its own condition and maps to exactly one code.
use vstd::prelude::*;

use crate::digest::Digest;
use crate::error::SummError;
use crate::registry::codes;
use crate::text::{debug_quoted, debug_text};

verus! {

#[derive(Debug)]
pub enum RegistryError {
    /// The repository has never been written to. `NAME_UNKNOWN`, 404.
    NameUnknown { repo: String },
    /// A tag that does not match the tag grammar. `NAME_INVALID`, 400.
    ///
    /// Not merely cosmetic: the history and counter ranges use NUL as the
    /// terminator after a tag, which is only unambiguous because the grammar
    /// excludes NUL.
    TagInvalid { tag: String, reason: String },
    /// The body is not a manifest this registry can store. `MANIFEST_INVALID`,
    /// 400.
    ManifestInvalid { reason: String },
    /// No such manifest, or no such tag. `MANIFEST_UNKNOWN`, 404.
    ManifestUnknown { repo: String, reference: String },
    /// A manifest referenced a blob or a child manifest that is not present in
    /// this repository. `MANIFEST_BLOB_UNKNOWN`, 400.
    ManifestBlobUnknown { repo: String, digest: Digest },
    /// A reference that offered itself as a digest but did not parse, or a
    /// digest that did not match the bytes pushed. `DIGEST_INVALID`, 400.
    DigestInvalid { reason: String },
    /// The blob is not known to this repository. `BLOB_UNKNOWN`, 404.
    BlobUnknown { repo: String, digest: Digest },
    /// The metadata store failed, or a stored record would not decode. Not a
    /// client error.
    Meta(SummError),
}

pub type Result<T> = std::result::Result<T, RegistryError>;

/// What a failure says.
pub enum Fault {
    NameUnknown(Seq<char>),
    TagInvalid(Seq<char>, Seq<char>),
    ManifestInvalid(Seq<char>),
    ManifestUnknown(Seq<char>, Seq<char>),
    ManifestBlobUnknown(Seq<char>, Digest),
    DigestInvalid(Seq<char>),
    BlobUnknown(Seq<char>, Digest),
    /// The store itself failed; its words are its own.
    Storage,
    NotFound,
    InvalidData(Seq<char>),
    InvalidStoredDigest(Seq<char>),
}

/// A stored record that does not read back.
pub open spec fn corrupt(what: Seq<char>) -> Fault {
    Fault::InvalidData("malformed stored record: "@ + what)
}

impl View for RegistryError {
    type V = Fault;

    open spec fn view(&self) -> Fault {
        match self {
            RegistryError::NameUnknown { repo } => Fault::NameUnknown(repo@),
            RegistryError::TagInvalid { tag, reason } => Fault::TagInvalid(tag@, reason@),
            RegistryError::ManifestInvalid { reason } => Fault::ManifestInvalid(reason@),
            RegistryError::ManifestUnknown { repo, reference } => Fault::ManifestUnknown(
                repo@,
                reference@,
            ),
            RegistryError::ManifestBlobUnknown { repo, digest } => Fault::ManifestBlobUnknown(
                repo@,
                *digest,
            ),
            RegistryError::DigestInvalid { reason } => Fault::DigestInvalid(reason@),
            RegistryError::BlobUnknown { repo, digest } => Fault::BlobUnknown(repo@, *digest),
            RegistryError::Meta(SummError::Storage(_)) => Fault::Storage,
            RegistryError::Meta(SummError::NotFound) => Fault::NotFound,
            RegistryError::Meta(SummError::InvalidData(m)) => Fault::InvalidData(m@),
            RegistryError::Meta(SummError::InvalidDigest(m)) => Fault::InvalidStoredDigest(m@),
        }
    }
}

/// An answer is the expected one, unless the store failed to give it.
pub open spec fn answers<V>(
    got: std::result::Result<V, Fault>,
    expected: std::result::Result<V, Fault>,
    reliable: bool,
) -> bool {
    got == expected || (!reliable && got == Err::<V, Fault>(Fault::Storage))
}

/// What a result says.
pub open spec fn seen<T: DeepView>(r: Result<T>) -> std::result::Result<T::V, Fault> {
    match r {
        Ok(v) => Ok(v.deep_view()),
        Err(e) => Err(e@),
    }
}

impl RegistryError {
    /// The code a failure answers with.
    pub open spec fn code_text(self) -> Seq<char> {
        match self {
            RegistryError::NameUnknown { .. } => "NAME_UNKNOWN"@,
            RegistryError::TagInvalid { .. } => "NAME_INVALID"@,
            RegistryError::ManifestInvalid { .. } => "MANIFEST_INVALID"@,
            RegistryError::ManifestUnknown { .. } => "MANIFEST_UNKNOWN"@,
            RegistryError::ManifestBlobUnknown { .. } => "MANIFEST_BLOB_UNKNOWN"@,
            RegistryError::DigestInvalid { .. } => "DIGEST_INVALID"@,
            RegistryError::BlobUnknown { .. } => "BLOB_UNKNOWN"@,
            RegistryError::Meta(_) => "UNKNOWN"@,
        }
    }

    /// How a failure reads.
    pub open spec fn text(self) -> Seq<char> {
        match self {
            RegistryError::NameUnknown { repo } => "repository name not known to registry: "@
                + repo@,
            RegistryError::TagInvalid { tag, reason } => "invalid tag "@ + debug_text(tag@) + ": "@
                + reason@,
            RegistryError::ManifestInvalid { reason } => "manifest invalid: "@ + reason@,
            RegistryError::ManifestUnknown { repo, reference } => "manifest unknown: "@ + repo@
                + "@"@ + reference@,
            RegistryError::ManifestBlobUnknown { repo, digest } => digest.text()
                + " is not present in "@ + repo@,
            RegistryError::DigestInvalid { reason } => "invalid digest: "@ + reason@,
            RegistryError::BlobUnknown { repo, digest } => "blob unknown to registry: "@
                + digest.text() + " in "@ + repo@,
            RegistryError::Meta(e) => e.text(),
        }
    }

    /// The error code for this failure. The handler pairs it with a status; the
    /// mapping is one to one, so the code is the whole decision.
    pub fn code(&self) -> (r: &'static str)
        ensures
            r@ == self.code_text(),
    {
        match self {
            RegistryError::NameUnknown { .. } => codes::NAME_UNKNOWN,
            RegistryError::TagInvalid { .. } => codes::NAME_INVALID,
            RegistryError::ManifestInvalid { .. } => codes::MANIFEST_INVALID,
            RegistryError::ManifestUnknown { .. } => codes::MANIFEST_UNKNOWN,
            RegistryError::ManifestBlobUnknown { .. } => codes::MANIFEST_BLOB_UNKNOWN,
            RegistryError::DigestInvalid { .. } => codes::DIGEST_INVALID,
            RegistryError::BlobUnknown { .. } => codes::BLOB_UNKNOWN,
            RegistryError::Meta(_) => codes::UNKNOWN,
        }
    }

    /// Whether the caller did something wrong. `false` means the store did, and
    /// the response is a 500 rather than anything in the 4xx range.
    pub fn is_client_error(&self) -> (r: bool)
        ensures
            r == !(self is Meta),
    {
        match self {
            RegistryError::Meta(_) => false,
            _ => true,
        }
    }

    /// A manifest that cannot be stored.
    pub fn invalid(reason: &str) -> (r: Self)
        ensures
            r@ == Fault::ManifestInvalid(reason@),
    {
        RegistryError::ManifestInvalid { reason: reason.to_owned() }
    }

    /// A stored record that does not read back.
    pub fn corrupt(what: &str) -> (r: Self)
        ensures
            r@ == corrupt(what@),
    {
        RegistryError::Meta(
            SummError::InvalidData("malformed stored record: ".to_owned().concat(what)),
        )
    }

    /// The failure in words.
    pub fn message(&self) -> (r: String)
        ensures
            r@ == self.text(),
    {
        match self {
            RegistryError::NameUnknown { repo } => "repository name not known to registry: "
                .to_owned()
                .concat(repo.as_str()),
            RegistryError::TagInvalid { tag, reason } => {
                let mut m = "invalid tag ".to_owned();
                m.append(debug_quoted(tag.as_str()).as_str());
                m.append(": ");
                m.append(reason.as_str());
                m
            },
            RegistryError::ManifestInvalid { reason } => "manifest invalid: ".to_owned().concat(
                reason.as_str(),
            ),
            RegistryError::ManifestUnknown { repo, reference } => {
                let mut m = "manifest unknown: ".to_owned();
                m.append(repo.as_str());
                m.append("@");
                m.append(reference.as_str());
                m
            },
            RegistryError::ManifestBlobUnknown { repo, digest } => {
                let mut m = digest.to_text();
                m.append(" is not present in ");
                m.append(repo.as_str());
                m
            },
            RegistryError::DigestInvalid { reason } => "invalid digest: ".to_owned().concat(
                reason.as_str(),
            ),
            RegistryError::BlobUnknown { repo, digest } => {
                let mut m = "blob unknown to registry: ".to_owned();
                m.append(digest.to_text().as_str());
                m.append(" in ");
                m.append(repo.as_str());
                m
            },
            RegistryError::Meta(e) => e.message(),
        }
    }
}

} // verus!
