//! Requests and replies as plain values.
use vstd::prelude::*;

use crate::server::config::ServerConfig;
use crate::server::error::{ApiError, Failure};
use crate::server::query::{first, first_value};
use crate::server::seam::{
    optional_text, Descriptor, HistoryCursor, ManifestInfo, RepoDetail, RepoSummary, TagEventInfo,
    TagInfo,
};
use crate::text::decimal;
use crate::text::decimal_text;

verus! {

pub const MEDIA_TYPE_JSON: &'static str = "application/json";

pub const MEDIA_TYPE_OCTET_STREAM: &'static str = "application/octet-stream";

pub const MEDIA_TYPE_MANIFEST: &'static str = "application/vnd.oci.image.manifest.v1+json";

pub const MEDIA_TYPE_INDEX: &'static str = "application/vnd.oci.image.index.v1+json";

// --- requests ------------------------------------------------------------------

#[derive(Debug, Clone, Copy, PartialEq, Eq, Structural)]
pub enum Method {
    Get,
    Head,
    Post,
    Put,
    Patch,
    Delete,
    /// Any other method. No endpoint takes one.
    Other,
}

/// A request without its body.
#[derive(Debug)]
pub struct Request {
    pub method: Method,
    pub path: String,
    /// The pairs of the query string, decoded, in order.
    pub query: Vec<(String, String)>,
    /// The headers, by lowercase name.
    pub headers: Vec<(String, String)>,
}

/// What a request asks.
pub struct Asked {
    pub method: Method,
    pub path: Seq<char>,
    pub query: Seq<(Seq<char>, Seq<char>)>,
    pub headers: Seq<(Seq<char>, Seq<char>)>,
}

impl DeepView for Request {
    type V = Asked;

    open spec fn deep_view(&self) -> Asked {
        Asked {
            method: self.method,
            path: self.path@,
            query: self.query.deep_view(),
            headers: self.headers.deep_view(),
        }
    }
}

impl Asked {
    /// The first value of a query parameter.
    pub open spec fn param(self, key: Seq<char>) -> Option<Seq<char>> {
        first_value(self.query, key)
    }

    /// The first value of a header.
    pub open spec fn header(self, name: Seq<char>) -> Option<Seq<char>> {
        first_value(self.headers, name)
    }
}

impl Request {
    pub fn param(&self, key: &str) -> (r: Option<&str>)
        ensures
            optional_text(r) == self.deep_view().param(key@),
    {
        assert(self.query@.map_values(|p: (String, String)| p.deep_view())
            =~= self.query.deep_view());
        first(self.query.as_slice(), key)
    }

    pub fn header(&self, name: &str) -> (r: Option<&str>)
        ensures
            optional_text(r) == self.deep_view().header(name@),
    {
        assert(self.headers@.map_values(|p: (String, String)| p.deep_view())
            =~= self.headers.deep_view());
        first(self.headers.as_slice(), name)
    }
}

/// What a handler consults besides the registry.
pub struct Ctx<'a> {
    pub request: &'a Request,
    pub config: &'a ServerConfig,
}

// --- replies -------------------------------------------------------------------

/// A body that is written as JSON.
#[allow(inconsistent_fields)]
#[derive(Debug)]
pub enum Document {
    /// `{"name": .., "tags": [..]}`
    Tags { name: String, tags: Vec<String> },
    /// `{"repositories": [..]}`
    Catalog { repositories: Vec<String> },
    /// An image index whose manifests are these.
    Index { manifests: Vec<Descriptor> },
    Repositories { repositories: Vec<RepoSummary>, next: Option<String> },
    Repository(RepoDetail),
    TagRows { tags: Vec<TagInfo>, next: Option<String> },
    ManifestRows { manifests: Vec<ManifestInfo>, next: Option<String> },
    Manifest(ManifestInfo),
    TagHistory { events: Vec<TagEventInfo>, next: Option<HistoryCursor> },
}

/// What a document says.
#[allow(inconsistent_fields)]
pub enum Written {
    Tags { name: Seq<char>, tags: Seq<Seq<char>> },
    Catalog { repositories: Seq<Seq<char>> },
    Index { manifests: Seq<Descriptor> },
    Repositories { repositories: Seq<RepoSummary>, next: Option<Seq<char>> },
    Repository(RepoDetail),
    TagRows { tags: Seq<TagInfo>, next: Option<Seq<char>> },
    ManifestRows { manifests: Seq<ManifestInfo>, next: Option<Seq<char>> },
    Manifest(ManifestInfo),
    TagHistory { events: Seq<TagEventInfo>, next: Option<HistoryCursor> },
}

impl DeepView for Document {
    type V = Written;

    open spec fn deep_view(&self) -> Written {
        match *self {
            Document::Tags { name, tags } => Written::Tags { name: name@, tags: tags.deep_view() },
            Document::Catalog { repositories } => Written::Catalog {
                repositories: repositories.deep_view(),
            },
            Document::Index { manifests } => Written::Index { manifests: manifests@ },
            Document::Repositories { repositories, next } => Written::Repositories {
                repositories: repositories@,
                next: next.deep_view(),
            },
            Document::Repository(detail) => Written::Repository(detail),
            Document::TagRows { tags, next } => Written::TagRows {
                tags: tags@,
                next: next.deep_view(),
            },
            Document::ManifestRows { manifests, next } => Written::ManifestRows {
                manifests: manifests@,
                next: next.deep_view(),
            },
            Document::Manifest(info) => Written::Manifest(info),
            Document::TagHistory { events, next } => Written::TagHistory { events: events@, next },
        }
    }
}

/// What follows the headers of a reply. `C` is a blob's content on its way out.
#[derive(Debug)]
pub enum ReplyBody<C> {
    Empty,
    Bytes(Vec<u8>),
    Blob(C),
    /// Written as JSON, with the `Content-Length` that this gives. When `quiet`, as
    /// for a `HEAD`, the length is all that is sent.
    Json { document: Document, quiet: bool },
}

pub enum BodyView<C> {
    Empty,
    Bytes(Seq<u8>),
    Blob(C),
    Json { document: Written, quiet: bool },
}

#[derive(Debug)]
pub struct Reply<C> {
    pub status: u16,
    pub headers: Vec<(String, String)>,
    pub body: ReplyBody<C>,
}

/// What a reply says.
pub struct Said<C> {
    pub status: u16,
    pub headers: Seq<(Seq<char>, Seq<char>)>,
    pub body: BodyView<C>,
}

impl<C> DeepView for Reply<C> {
    type V = Said<C>;

    open spec fn deep_view(&self) -> Said<C> {
        Said {
            status: self.status,
            headers: self.headers.deep_view(),
            body: match self.body {
                ReplyBody::Empty => BodyView::Empty,
                ReplyBody::Bytes(b) => BodyView::Bytes(b@),
                ReplyBody::Blob(c) => BodyView::Blob(c),
                ReplyBody::Json { document, quiet } => BodyView::Json {
                    document: document.deep_view(),
                    quiet,
                },
            },
        }
    }
}

pub type Handled<C> = Result<Reply<C>, ApiError>;

/// What a handled request is answered with.
pub open spec fn answer<C>(h: Handled<C>) -> Result<Said<C>, Failure> {
    match h {
        Ok(reply) => Ok(reply.deep_view()),
        Err(e) => Err(e.deep_view()),
    }
}

// --- header values -------------------------------------------------------------

/// Whether a text may stand as the value of a header: no control characters but
/// the tab.
pub open spec fn is_header_text(s: Seq<char>) -> bool {
    forall|i: int|
        0 <= i < s.len() ==> (#[trigger] s[i] == '\t' || s[i] >= ' ' && s[i] != '\u{7f}')
}

/// The value of a header that is meant to say `s`.
pub open spec fn header_text(s: Seq<char>) -> Seq<char> {
    if is_header_text(s) {
        s
    } else {
        "invalid"@
    }
}

/// `axum::http::HeaderValue::from_str`: it takes a text exactly when none of its
/// bytes is below 32, other than the tab, or equal to 127. Those bytes stand for
/// characters of the same number, and no other character's encoding holds them.
#[verifier::external_body]
fn fits_a_header(s: &str) -> (r: bool)
    ensures
        r == is_header_text(s@),
{
    axum::http::HeaderValue::from_str(s).is_ok()
}

/// A text as a header value, where it may be one.
pub fn checked_header(s: String) -> (r: Option<String>)
    ensures
        r.deep_view() == if is_header_text(s@) {
            Some(s@)
        } else {
            None::<Seq<char>>
        },
{
    if fits_a_header(s.as_str()) {
        Some(s)
    } else {
        None
    }
}

/// Header values built from digests, media types and paths are all plain by
/// construction; the fallback exists so that no input whatever can break a
/// response.
pub fn header_value(s: String) -> (r: String)
    ensures
        r@ == header_text(s@),
{
    if fits_a_header(s.as_str()) {
        s
    } else {
        "invalid".to_owned()
    }
}

/// A header of a reply.
pub fn header(name: &str, value: String) -> (r: (String, String))
    ensures
        r.deep_view() == (name@, value@),
{
    (name.to_owned(), value)
}

/// The `Content-Length` header.
pub open spec fn length_header(n: nat) -> (Seq<char>, Seq<char>) {
    ("content-length"@, decimal(n))
}

/// Optional, and sent anyway: it costs one header and placates old tooling.
pub const API_VERSION_HEADER: &'static str = "docker-distribution-api-version";

/// The headers of a response, with the version named unless it already is.
pub open spec fn stamped(headers: Seq<(Seq<char>, Seq<char>)>) -> Seq<(Seq<char>, Seq<char>)> {
    if first_value(headers, API_VERSION_HEADER@) is Some {
        headers
    } else {
        headers.push((API_VERSION_HEADER@, "registry/2.0"@))
    }
}

pub fn stamp(headers: Vec<(String, String)>) -> (r: Vec<(String, String)>)
    ensures
        r.deep_view() == stamped(headers.deep_view()),
{
    assert(headers@.map_values(|p: (String, String)| p.deep_view()) =~= headers.deep_view());
    if first(headers.as_slice(), API_VERSION_HEADER).is_some() {
        return headers;
    }
    let mut all = headers;
    all.push(header(API_VERSION_HEADER, "registry/2.0".to_owned()));
    assert(all.deep_view() =~= headers.deep_view().push(
        (API_VERSION_HEADER@, "registry/2.0"@),
    ));
    all
}

// --- common replies ------------------------------------------------------------

/// A reply without a body that names a length.
pub open spec fn bodiless<C>(
    status: u16,
    length: nat,
    headers: Seq<(Seq<char>, Seq<char>)>,
) -> Said<C> {
    Said { status, headers: headers.push(length_header(length)), body: BodyView::Empty }
}

/// A `HEAD` names the length that the body would have had; an empty reply names
/// zero, because a missing length makes some clients wait.
pub fn empty_with_length<C>(
    status: u16,
    length: u64,
    headers: Vec<(String, String)>,
) -> (r: Reply<C>)
    ensures
        r.deep_view() == bodiless::<C>(status, length as nat, headers.deep_view()),
{
    let mut all = headers;
    all.push(header("content-length", decimal_text(length)));
    assert(all.deep_view() =~= headers.deep_view().push(length_header(length as nat)));
    Reply { status, headers: all, body: ReplyBody::Empty }
}

/// `405`, with the methods that are taken.
pub open spec fn not_allowed(allow: Seq<char>) -> Failure {
    let plain = crate::server::error::failure(crate::server::error::ErrorCode::Unsupported);
    Failure { headers: plain.headers.push(("allow"@, allow)), ..plain }
}

pub fn method_not_allowed(allow: &str) -> (r: ApiError)
    ensures
        r.deep_view() == not_allowed(allow@),
{
    ApiError::new(crate::server::error::ErrorCode::Unsupported).with_header(
        "allow",
        allow.to_owned(),
    )
}

} // verus!
