//! The `/v2/` path dispatcher.
//!
//! A repository name may contain `/`: `foo/bar/baz` is one name, not three path
//! segments. So the operation is identified by a *suffix* of the path rather than
//! a prefix, and everything to the left of it is the name.
use vstd::prelude::*;
use vstd::utf8::*;

use crate::digest::{digest_text_is_plain, Digest};
use crate::server::query::{lemma_undecoded, path_decode, path_decoded};
use crate::server::reference::{
    digest_request, digests_are_requested_by_their_text, is_component, is_name,
    lemma_component_chars, reference_request, valid_name, Referred,
};
use crate::text::{
    chars_of, joined_by, lemma_first_index_bounds, lemma_split_at, split, split_chars,
    splitting_is_undone_by_joining, str_eq, strip_prefix, text_of,
};

verus! {

/// One `/v2/` operation, with the repository name already split out.
#[derive(Debug, Clone, PartialEq, Eq)]
pub enum Endpoint {
    /// `GET /v2/`.
    Base,
    /// `GET /v2/_catalog`.
    Catalog,
    /// `/v2/<name>/tags/list`.
    TagList { name: String },
    /// `/v2/<name>/manifests/<reference>`.
    Manifest { name: String, reference: String },
    /// `/v2/<name>/blobs/<digest>`.
    Blob { name: String, digest: String },
    /// `POST /v2/<name>/blobs/uploads/`.
    Uploads { name: String },
    /// `/v2/<name>/blobs/uploads/<id>`.
    Upload { name: String, id: String },
    /// `/v2/<name>/referrers/<digest>`.
    Referrers { name: String, digest: String },
}

/// Why a path did not become an [`Endpoint`].
#[derive(Debug, Clone, PartialEq, Eq)]
pub enum RouteError {
    /// The shape matched but the repository name violated the grammar.
    InvalidName(String),
    /// No endpoint has this shape.
    NoMatch,
}

/// What a path leads to.
pub enum Target {
    Base,
    Catalog,
    TagList { name: Seq<char> },
    Manifest { name: Seq<char>, reference: Seq<char> },
    Blob { name: Seq<char>, digest: Seq<char> },
    Uploads { name: Seq<char> },
    Upload { name: Seq<char>, id: Seq<char> },
    Referrers { name: Seq<char>, digest: Seq<char> },
    InvalidName(Seq<char>),
    NoMatch,
}

impl DeepView for Endpoint {
    type V = Target;

    open spec fn deep_view(&self) -> Target {
        match *self {
            Endpoint::Base => Target::Base,
            Endpoint::Catalog => Target::Catalog,
            Endpoint::TagList { name } => Target::TagList { name: name@ },
            Endpoint::Manifest { name, reference } => Target::Manifest {
                name: name@,
                reference: reference@,
            },
            Endpoint::Blob { name, digest } => Target::Blob { name: name@, digest: digest@ },
            Endpoint::Uploads { name } => Target::Uploads { name: name@ },
            Endpoint::Upload { name, id } => Target::Upload { name: name@, id: id@ },
            Endpoint::Referrers { name, digest } => Target::Referrers {
                name: name@,
                digest: digest@,
            },
        }
    }
}

impl DeepView for RouteError {
    type V = Target;

    open spec fn deep_view(&self) -> Target {
        match *self {
            RouteError::InvalidName(name) => Target::InvalidName(name@),
            RouteError::NoMatch => Target::NoMatch,
        }
    }
}

/// What a routing decision leads to.
pub open spec fn target(r: Result<Endpoint, RouteError>) -> Target {
    match r {
        Ok(endpoint) => endpoint.deep_view(),
        Err(e) => e.deep_view(),
    }
}

/// The segments of a path, decoded one by one.
pub open spec fn decoded_segments(rest: Seq<char>) -> Seq<Seq<char>> {
    Seq::new(split(rest, '/').len(), |i: int| path_decoded(split(rest, '/')[i]))
}

/// The segments of a path, less the empty one that a trailing slash leaves.
pub open spec fn path_segments(rest: Seq<char>) -> Seq<Seq<char>> {
    let all = decoded_segments(rest);
    if all.last().len() == 0 {
        all.drop_last()
    } else {
        all
    }
}

/// The name that stands left of a suffix of `suffix` segments.
pub open spec fn name_left_of(segments: Seq<Seq<char>>, suffix: int) -> Seq<char> {
    joined_by(segments.subrange(0, segments.len() - suffix), '/')
}

/// A target, where its name satisfies the grammar.
pub open spec fn checked(name: Seq<char>, found: Target) -> Target {
    if is_name(name) {
        found
    } else {
        Target::InvalidName(name)
    }
}

/// What the segments of a path lead to. The longest suffix counts: an upload's
/// identifier is not read as a digest.
pub open spec fn matched(s: Seq<Seq<char>>) -> Target {
    let n = s.len();
    if exists|i: int| 0 <= i < n && (#[trigger] s[i]).len() == 0 {
        Target::NoMatch
    } else if n == 1 && s[0] == "_catalog"@ {
        Target::Catalog
    } else if n >= 4 && s[n - 3] == "blobs"@ && s[n - 2] == "uploads"@ {
        let name = name_left_of(s, 3);
        checked(name, Target::Upload { name, id: s[n - 1] })
    } else if n < 3 {
        Target::NoMatch
    } else {
        let name = name_left_of(s, 2);
        if s[n - 2] == "blobs"@ && s[n - 1] == "uploads"@ {
            checked(name, Target::Uploads { name })
        } else if s[n - 2] == "manifests"@ {
            checked(name, Target::Manifest { name, reference: s[n - 1] })
        } else if s[n - 2] == "blobs"@ {
            checked(name, Target::Blob { name, digest: s[n - 1] })
        } else if s[n - 2] == "tags"@ && s[n - 1] == "list"@ {
            checked(name, Target::TagList { name })
        } else if s[n - 2] == "referrers"@ {
            checked(name, Target::Referrers { name, digest: s[n - 1] })
        } else {
            Target::NoMatch
        }
    }
}

/// What a path leads to.
pub open spec fn routed(path: Seq<char>) -> Target {
    if path == "/v2"@ || path == "/v2/"@ {
        Target::Base
    } else if "/v2/"@.is_prefix_of(path) {
        matched(path_segments(path.subrange(4, path.len() as int)))
    } else {
        Target::NoMatch
    }
}

/// The texts joined by slashes.
fn join(parts: &[String]) -> (r: String)
    requires
        parts@.len() > 0,
    ensures
        r@ == joined_by(parts.deep_view(), '/'),
{
    let n = parts.len();
    let mut i: usize = 1;
    let mut out = parts[0].as_str().to_owned();
    proof {
        assert(parts.deep_view().subrange(0, 1) =~= seq![parts@[0]@]);
    }
    while i < n
        invariant
            1 <= i <= n,
            n == parts@.len(),
            out@ == joined_by(parts.deep_view().subrange(0, i as int), '/'),
        decreases n - i,
    {
        out.push('/');
        out.append(parts[i].as_str());
        i = i + 1;
        proof {
            let now = parts.deep_view().subrange(0, i as int);
            assert(now.drop_last() =~= parts.deep_view().subrange(0, i - 1));
            assert(now.last() == parts@[i - 1]@);
        }
    }
    proof {
        assert(parts.deep_view().subrange(0, n as int) =~= parts.deep_view());
    }
    out
}

/// The name left of a suffix, where it satisfies the grammar.
fn name_of(segments: &[String], suffix: usize) -> (r: Result<String, RouteError>)
    requires
        suffix < segments@.len(),
    ensures
        match r {
            Ok(name) => name@ == name_left_of(segments.deep_view(), suffix as int) && is_name(name@),
            Err(e) => e.deep_view() == Target::InvalidName(
                name_left_of(segments.deep_view(), suffix as int),
            ) && !is_name(name_left_of(segments.deep_view(), suffix as int)),
        },
{
    let left = vstd::slice::slice_subrange(segments, 0, segments.len() - suffix);
    assert(left.deep_view() =~= segments.deep_view().subrange(0, segments@.len() - suffix));
    let name = join(left);
    if valid_name(name.as_str()) {
        Ok(name)
    } else {
        Err(RouteError::InvalidName(name))
    }
}

/// The segments of what follows `/v2/`.
fn segments_of(rest: &[char]) -> (r: Vec<String>)
    ensures
        r.deep_view() == path_segments(rest@),
{
    let parts = split_chars(rest, '/');
    let mut segments: Vec<String> = Vec::new();
    let mut i: usize = 0;
    while i < parts.len()
        invariant
            i <= parts@.len(),
            parts.deep_view() == split(rest@, '/'),
            segments@.len() == i,
            forall|k: int| 0 <= k < i ==> (#[trigger] segments@[k])@ == path_decoded(parts.deep_view()[k]),
        decreases parts.len() - i,
    {
        let part = text_of(parts[i].as_slice());
        assert(part@ == parts.deep_view()[i as int]);
        segments.push(path_decode(part.as_str()));
        i = i + 1;
    }
    proof {
        splitting_is_undone_by_joining(rest@, '/');
        assert(segments.deep_view() =~= decoded_segments(rest@));
    }
    if chars_of(segments[segments.len() - 1].as_str()).len() == 0 {
        let ghost all = segments.deep_view();
        segments.pop();
        assert(segments.deep_view() =~= all.drop_last());
    }
    segments
}

/// Split a request path into an [`Endpoint`].
///
/// The suffix is matched from the right, longest form first, because the name
/// occupies everything to the left of it. A repository legitimately called
/// `foo/blobs` is therefore routable.
///
/// Segments are percent-decoded one by one *after* splitting on `/`, so an encoded
/// `%2F` inside a tag can never be mistaken for a path separator.
///
/// A path whose *shape* matches an endpoint but whose name violates the grammar is
/// [`RouteError::InvalidName`], not [`RouteError::NoMatch`]: a client can act on
/// the difference.
pub fn route(path: &str) -> (r: Result<Endpoint, RouteError>)
    ensures
        target(r) == routed(path@),
{
    proof {
        reveal_strlit("/v2");
        reveal_strlit("/v2/");
    }
    if str_eq(path, "/v2") || str_eq(path, "/v2/") {
        return Ok(Endpoint::Base);
    }
    let chars = chars_of(path);
    let rest = match strip_prefix(chars.as_slice(), "/v2/") {
        Some(rest) => rest,
        None => {
            assert(!("/v2/"@.is_prefix_of(path@))) by {
                if "/v2/"@.is_prefix_of(path@) {
                    assert(path@.subrange(0, 4) =~= "/v2/"@);
                }
            }
            return Err(RouteError::NoMatch);
        },
    };
    proof {
        assert(path@.subrange(4, path@.len() as int) =~= rest@);
        assert("/v2/"@ =~= path@.subrange(0, 4));
    }
    let segments = segments_of(rest);
    let ghost s = segments.deep_view();
    let n = segments.len();
    let mut i: usize = 0;
    while i < n
        invariant
            i <= n,
            n == segments@.len(),
            s == segments.deep_view(),
            target(Err(RouteError::NoMatch)) == Target::NoMatch,
            routed(path@) == matched(s),
            forall|k: int| 0 <= k < i ==> (#[trigger] s[k]).len() > 0,
        decreases n - i,
    {
        if chars_of(segments[i].as_str()).len() == 0 {
            assert(s[i as int].len() == 0);
            return Err(RouteError::NoMatch);
        }
        assert(s[i as int].len() > 0);
        i = i + 1;
    }
    if n == 1 && str_eq(segments[0].as_str(), "_catalog") {
        return Ok(Endpoint::Catalog);
    }
    if n >= 4 && str_eq(segments[n - 3].as_str(), "blobs") && str_eq(
        segments[n - 2].as_str(),
        "uploads",
    ) {
        let name = match name_of(segments.as_slice(), 3) {
            Ok(name) => name,
            Err(e) => return Err(e),
        };
        return Ok(Endpoint::Upload { name, id: segments[n - 1].as_str().to_owned() });
    }
    if n < 3 {
        return Err(RouteError::NoMatch);
    }
    let kind = segments[n - 2].as_str();
    let last = segments[n - 1].as_str();
    let known = str_eq(kind, "blobs") || str_eq(kind, "manifests") || (str_eq(kind, "tags")
        && str_eq(last, "list")) || str_eq(kind, "referrers");
    if !known {
        return Err(RouteError::NoMatch);
    }
    proof {
        reveal_strlit("manifests");
        reveal_strlit("blobs");
        reveal_strlit("tags");
        reveal_strlit("referrers");
    }
    let name = match name_of(segments.as_slice(), 2) {
        Ok(name) => name,
        Err(e) => return Err(e),
    };
    if str_eq(kind, "blobs") {
        if str_eq(last, "uploads") {
            Ok(Endpoint::Uploads { name })
        } else {
            Ok(Endpoint::Blob { name, digest: last.to_owned() })
        }
    } else if str_eq(kind, "manifests") {
        Ok(Endpoint::Manifest { name, reference: last.to_owned() })
    } else if str_eq(kind, "tags") {
        Ok(Endpoint::TagList { name })
    } else {
        Ok(Endpoint::Referrers { name, digest: last.to_owned() })
    }
}

/// What answers under a path.
#[derive(Debug, Clone, Copy, PartialEq, Eq, Structural)]
pub enum Surface {
    /// `/v2/`
    Registry,
    /// `/api/`
    Discovery,
    /// Everything else: the web pages route on the client's side.
    Pages,
}

/// A path is a prefix, or lies below it.
pub open spec fn lies_under(path: Seq<char>, prefix: Seq<char>) -> bool {
    path == prefix || (prefix + seq!['/']).is_prefix_of(path)
}

pub open spec fn surface_of(path: Seq<char>) -> Surface {
    if lies_under(path, "/v2"@) {
        Surface::Registry
    } else if lies_under(path, "/api"@) {
        Surface::Discovery
    } else {
        Surface::Pages
    }
}

fn is_under(path: &str, prefix: &str, below: &str) -> (r: bool)
    requires
        below@ == prefix@ + seq!['/'],
    ensures
        r == lies_under(path@, prefix@),
{
    let chars = chars_of(path);
    match strip_prefix(chars.as_slice(), below) {
        Some(rest) => {
            assert(path@.subrange(0, below@.len() as int) =~= below@);
            true
        },
        None => {
            proof {
                if below@.is_prefix_of(path@) {
                    assert(path@.subrange(0, below@.len() as int) =~= below@);
                }
            }
            str_eq(path, prefix)
        },
    }
}

/// What answers under a path. An unknown path of an API is an error of that API,
/// and never a page.
pub fn surface(path: &str) -> (r: Surface)
    ensures
        r == surface_of(path@),
{
    proof {
        reveal_strlit("/v2");
        reveal_strlit("/v2/");
        reveal_strlit("/api");
        reveal_strlit("/api/");
        assert("/v2/"@ =~= "/v2"@ + seq!['/']);
        assert("/api/"@ =~= "/api"@ + seq!['/']);
    }
    if is_under(path, "/v2", "/v2/") {
        Surface::Registry
    } else if is_under(path, "/api", "/api/") {
        Surface::Discovery
    } else {
        Surface::Pages
    }
}

// --- laws ----------------------------------------------------------------------

/// Only a path of the registry's surface leads to one of its endpoints.
pub proof fn endpoints_lie_on_the_registry_surface(path: Seq<char>)
    requires
        routed(path) != Target::NoMatch,
    ensures
        surface_of(path) == Surface::Registry,
{
    reveal_strlit("/v2");
    reveal_strlit("/v2/");
    assert("/v2/"@ =~= "/v2"@ + seq!['/']);
}

/// Whether an endpoint carries a name, and which.
pub open spec fn name_in(t: Target) -> Option<Seq<char>> {
    match t {
        Target::TagList { name } => Some(name),
        Target::Manifest { name, .. } => Some(name),
        Target::Blob { name, .. } => Some(name),
        Target::Uploads { name } => Some(name),
        Target::Upload { name, .. } => Some(name),
        Target::Referrers { name, .. } => Some(name),
        _ => None,
    }
}

/// An endpoint only ever carries a name that satisfies the grammar, and a path is
/// refused for its name only where the name does not.
pub proof fn routed_names_are_valid(path: Seq<char>)
    ensures
        name_in(routed(path)) matches Some(name) ==> is_name(name),
        routed(path) matches Target::InvalidName(name) ==> !is_name(name),
{
}

/// A path segment that says just what is written: not empty, and without a slash,
/// a percent sign or anything beyond ASCII.
pub open spec fn is_plain_segment(s: Seq<char>) -> bool {
    s.len() > 0 && forall|i: int|
        0 <= i < s.len() ==> (#[trigger] s[i]) != '/' && s[i] != '%' && '\0' <= s[i] <= '\u{7f}'
}

proof fn lemma_plain_segment(s: Seq<char>)
    requires
        is_plain_segment(s),
    ensures
        path_decoded(s) == s,
        split(s, '/') == seq![s],
{
    is_ascii_chars_encode_utf8(s);
    let b = encode_utf8(s);
    assert forall|i: int| 0 <= i < b.len() implies #[trigger] b[i] != 0x25 by {
        assert(s[i] != '%');
        assert(s[i] as u8 == b[i]);
    }
    lemma_undecoded(b, false);
    encode_utf8_valid_utf8(s);
    encode_utf8_decode_utf8(s);
    lemma_first_index_bounds(s, '/');
}

proof fn lemma_name_segments(name: Seq<char>, i: int)
    requires
        is_name(name),
        0 <= i < split(name, '/').len(),
    ensures
        is_plain_segment(split(name, '/')[i]),
{
    let part = split(name, '/')[i];
    assert(is_component(part));
    splitting_is_undone_by_joining(name, '/');
    assert forall|k: int| 0 <= k < part.len() implies (#[trigger] part[k]) != '/' && part[k] != '%'
        && '\0' <= part[k] <= '\u{7f}' by {
        lemma_component_chars(part, k);
    }
}

/// A name whose components each say just what is written, valid or not.
pub open spec fn has_plain_parts(name: Seq<char>) -> bool {
    forall|i: int| 0 <= i < split(name, '/').len() ==> is_plain_segment(#[trigger] split(name, '/')[i])
}

proof fn lemma_plain_name(name: Seq<char>)
    requires
        is_name(name),
    ensures
        has_plain_parts(name),
{
    assert forall|i: int| 0 <= i < split(name, '/').len() implies is_plain_segment(
        #[trigger] split(name, '/')[i],
    ) by {
        lemma_name_segments(name, i);
    }
}

/// The segments of the path of a resource under a name.
proof fn lemma_resource_segments(name: Seq<char>, tail: Seq<Seq<char>>)
    requires
        has_plain_parts(name),
        tail.len() > 0,
        forall|i: int| 0 <= i < tail.len() ==> is_plain_segment(#[trigger] tail[i]),
    ensures
        split(name + seq!['/'] + joined_by(tail, '/'), '/') == split(name, '/') + tail,
        path_segments(name + seq!['/'] + joined_by(tail, '/')) == split(name, '/') + tail,
        name_left_of(split(name, '/') + tail, tail.len() as int) == name,
{
    let rest = name + seq!['/'] + joined_by(tail, '/');
    let parts = split(name, '/') + tail;
    lemma_tail(tail);
    lemma_split_at(name, joined_by(tail, '/'), '/');
    assert forall|i: int| 0 <= i < parts.len() implies is_plain_segment(#[trigger] parts[i]) by {
        if i < split(name, '/').len() {
            assert(is_plain_segment(split(name, '/')[i]));
        }
    }
    assert forall|i: int| 0 <= i < parts.len() implies path_decoded(#[trigger] parts[i]) == parts[i] by {
        lemma_plain_segment(parts[i]);
    }
    assert(decoded_segments(rest) =~= parts);
    assert(is_plain_segment(parts[parts.len() - 1]));
    splitting_is_undone_by_joining(name, '/');
    assert(parts.subrange(0, parts.len() - tail.len()) =~= split(name, '/'));
}

proof fn lemma_tail(tail: Seq<Seq<char>>)
    requires
        tail.len() > 0,
        forall|i: int| 0 <= i < tail.len() ==> is_plain_segment(#[trigger] tail[i]),
    ensures
        split(joined_by(tail, '/'), '/') == tail,
    decreases tail.len(),
{
    lemma_plain_segment(tail.last());
    if tail.len() == 1 {
        assert(seq![tail[0]] =~= tail);
    } else {
        assert forall|i: int| 0 <= i < tail.len() - 1 implies is_plain_segment(
            #[trigger] tail.drop_last()[i],
        ) by {
            assert(tail.drop_last()[i] == tail[i]);
        }
        lemma_tail(tail.drop_last());
        lemma_split_at(joined_by(tail.drop_last(), '/'), tail.last(), '/');
        assert(tail.drop_last() + seq![tail.last()] =~= tail);
    }
}

/// The path of a manifest.
pub open spec fn manifest_path(name: Seq<char>, reference: Seq<char>) -> Seq<char> {
    "/v2/"@ + name + "/manifests/"@ + reference
}

/// The path of a blob.
pub open spec fn blob_path(name: Seq<char>, digest: Seq<char>) -> Seq<char> {
    "/v2/"@ + name + "/blobs/"@ + digest
}

/// The path of an upload session.
pub open spec fn upload_path(name: Seq<char>, id: Seq<char>) -> Seq<char> {
    "/v2/"@ + name + "/blobs/uploads/"@ + id
}

proof fn lemma_routed_resource(path: Seq<char>, name: Seq<char>, tail: Seq<Seq<char>>)
    requires
        has_plain_parts(name),
        tail.len() > 0,
        forall|i: int| 0 <= i < tail.len() ==> is_plain_segment(#[trigger] tail[i]),
        path == "/v2/"@ + (name + seq!['/'] + joined_by(tail, '/')),
    ensures
        routed(path) == matched(split(name, '/') + tail),
        forall|i: int|
            0 <= i < (split(name, '/') + tail).len() ==> (#[trigger] (split(name, '/') + tail)[i]).len()
                > 0,
        split(name, '/').len() > 0,
{
    reveal_strlit("/v2");
    reveal_strlit("/v2/");
    let rest = name + seq!['/'] + joined_by(tail, '/');
    assert(path.len() > 4);
    assert("/v2/"@.is_prefix_of(path));
    assert(path.subrange(4, path.len() as int) =~= rest);
    lemma_resource_segments(name, tail);
    splitting_is_undone_by_joining(name, '/');
    let parts = split(name, '/') + tail;
    assert forall|i: int| 0 <= i < parts.len() implies (#[trigger] parts[i]).len() > 0 by {
        if i < split(name, '/').len() {
            assert(is_plain_segment(split(name, '/')[i]));
        } else {
            assert(is_plain_segment(tail[i - split(name, '/').len()]));
        }
    }
}

/// The path of a manifest leads back to it, however many components the name has.
pub proof fn manifest_paths_lead_to_manifests(name: Seq<char>, reference: Seq<char>)
    requires
        is_name(name),
        is_plain_segment(reference),
    ensures
        routed(manifest_path(name, reference)) == (Target::Manifest { name, reference }),
{
    reveal_strlit("/manifests/");
    reveal_strlit("manifests");
    reveal_strlit("uploads");
    reveal_strlit("blobs");
    let tail = seq!["manifests"@, reference];
    lemma_plain_name(name);
    lemma_two_joined("manifests"@, reference);
    assert(manifest_path(name, reference) =~= "/v2/"@ + (name + seq!['/'] + joined_by(tail, '/')));
    assert("/manifests/"@ =~= seq!['/'] + "manifests"@ + seq!['/']);
    lemma_routed_resource(manifest_path(name, reference), name, tail);
    lemma_resource_segments(name, tail);
}

proof fn lemma_two_joined(a: Seq<char>, b: Seq<char>)
    ensures
        joined_by(seq![a, b], '/') == a + seq!['/'] + b,
{
    assert(seq![a, b].drop_last() =~= seq![a]);
    assert(joined_by(seq![a], '/') == a);
}

/// The path of a blob leads back to it: what a finished upload answers as its
/// location can be pulled. Only an upload collection is named otherwise.
pub proof fn blob_paths_lead_to_blobs(name: Seq<char>, digest: Seq<char>)
    requires
        is_name(name),
        is_plain_segment(digest),
        digest != "uploads"@,
    ensures
        routed(blob_path(name, digest)) == (Target::Blob { name, digest }),
{
    reveal_strlit("/blobs/");
    reveal_strlit("manifests");
    reveal_strlit("uploads");
    reveal_strlit("blobs");
    let tail = seq!["blobs"@, digest];
    lemma_plain_name(name);
    lemma_two_joined("blobs"@, digest);
    assert(blob_path(name, digest) =~= "/v2/"@ + (name + seq!['/'] + joined_by(tail, '/')));
    lemma_routed_resource(blob_path(name, digest), name, tail);
    lemma_resource_segments(name, tail);
}

/// The digest of a blob, written out, is a path segment of its own.
proof fn lemma_digest_segment(d: Digest)
    ensures
        is_plain_segment(d.text()),
        d.text() != "uploads"@,
{
    reveal_strlit("uploads");
    reveal_strlit("sha256");
    reveal_strlit("sha512");
    digest_text_is_plain(d, 0);
    assert forall|i: int| 0 <= i < d.text().len() implies (#[trigger] d.text()[i]) != '/' && d.text()[i]
        != '%' && '\0' <= d.text()[i] <= '\u{7f}' by {
        digest_text_is_plain(d, i);
    }
    assert(d.text()[0] == 's');
}

/// Where a stored blob is said to be, it can be pulled.
pub proof fn a_stored_blob_can_be_pulled(name: Seq<char>, d: Digest)
    requires
        is_name(name),
    ensures
        routed(blob_path(name, d.text())) == (Target::Blob { name, digest: d.text() }),
        digest_request(d.text()) == Ok::<Digest, Seq<char>>(d),
{
    lemma_digest_segment(d);
    blob_paths_lead_to_blobs(name, d.text());
    digests_are_requested_by_their_text(d);
}

/// Where a pushed manifest is said to be, it can be pulled by its digest.
pub proof fn a_pushed_manifest_can_be_pulled(name: Seq<char>, d: Digest)
    requires
        is_name(name),
    ensures
        routed(manifest_path(name, d.text())) == (Target::Manifest { name, reference: d.text() }),
        reference_request(d.text()) == Ok::<Referred, (bool, Seq<char>)>(Referred::Digest(d)),
{
    lemma_digest_segment(d);
    manifest_paths_lead_to_manifests(name, d.text());
    digests_are_requested_by_their_text(d);
}

/// The path of an upload session leads back to it, and its identifier is never
/// read as a digest.
pub proof fn upload_paths_lead_to_uploads(name: Seq<char>, id: Seq<char>)
    requires
        is_name(name),
        is_plain_segment(id),
    ensures
        routed(upload_path(name, id)) == (Target::Upload { name, id }),
{
    reveal_strlit("/blobs/uploads/");
    reveal_strlit("uploads");
    reveal_strlit("blobs");
    let tail = seq!["blobs"@, "uploads"@, id];
    lemma_plain_name(name);
    lemma_two_joined("blobs"@, "uploads"@);
    assert(tail.drop_last() =~= seq!["blobs"@, "uploads"@]);
    assert(upload_path(name, id) =~= "/v2/"@ + (name + seq!['/'] + joined_by(tail, '/')));
    lemma_routed_resource(upload_path(name, id), name, tail);
    lemma_resource_segments(name, tail);
}

/// The path of a repository's tags leads to their list.
pub proof fn tag_list_paths_lead_to_tag_lists(name: Seq<char>)
    requires
        is_name(name),
    ensures
        routed("/v2/"@ + name + "/tags/list"@) == (Target::TagList { name }),
{
    lemma_plain_name(name);
    lemma_tag_list_shape(name);
}

/// The path of a subject's referrers leads to their list.
pub proof fn referrer_paths_lead_to_referrers(name: Seq<char>, digest: Seq<char>)
    requires
        is_name(name),
        is_plain_segment(digest),
    ensures
        routed("/v2/"@ + name + "/referrers/"@ + digest) == (Target::Referrers { name, digest }),
{
    lemma_plain_name(name);
    lemma_referrers_shape(name, digest);
}

/// The path under which uploads are opened leads there, with its slash or without.
#[verifier::rlimit(40)]
pub proof fn upload_collections_lead_to_uploads(name: Seq<char>)
    requires
        is_name(name),
    ensures
        routed("/v2/"@ + name + "/blobs/uploads"@) == (Target::Uploads { name }),
        routed("/v2/"@ + name + "/blobs/uploads/"@) == (Target::Uploads { name }),
{
    lemma_plain_name(name);
    lemma_uploads_paths(name);
    lemma_blob_shape(name, "uploads"@);
    a_trailing_slash_says_nothing("/v2/"@ + name + "/blobs"@, "uploads"@);
}

#[verifier::rlimit(40)]
proof fn lemma_uploads_paths(name: Seq<char>)
    ensures
        is_plain_segment("uploads"@),
        "/v2/"@.is_prefix_of("/v2/"@ + name + "/blobs"@),
        "/v2/"@ + name + "/blobs/uploads"@ == blob_path(name, "uploads"@),
        "/v2/"@ + name + "/blobs"@ + seq!['/'] + "uploads"@ == blob_path(name, "uploads"@),
        "/v2/"@ + name + "/blobs"@ + seq!['/'] + "uploads"@ + seq!['/'] == "/v2/"@ + name
            + "/blobs/uploads/"@,
{
    reveal_strlit("/blobs/");
    reveal_strlit("/blobs");
    reveal_strlit("uploads");
    reveal_strlit("/blobs/uploads");
    reveal_strlit("/blobs/uploads/");
    let front = "/v2/"@ + name;
    assert("/blobs/uploads"@ =~= "/blobs/"@ + "uploads"@);
    assert("/blobs/"@ =~= "/blobs"@ + seq!['/']);
    assert("/blobs/uploads/"@ =~= "/blobs/"@ + "uploads"@ + seq!['/']);
    assert(front + ("/blobs/"@ + "uploads"@) =~= front + "/blobs/"@ + "uploads"@);
    assert(front + "/blobs"@ + seq!['/'] =~= front + ("/blobs"@ + seq!['/']));
    assert(front + "/blobs/"@ + "uploads"@ + seq!['/'] =~= front + ("/blobs/"@ + "uploads"@ + seq![
        '/',
    ]));
    assert("/v2/"@ =~= (front + "/blobs"@).subrange(0, "/v2/"@.len() as int));
}

/// The registry's base is there with its slash and without, and the catalogue below it.
#[verifier::rlimit(40)]
pub proof fn the_base_and_the_catalogue_are_there()
    ensures
        routed("/v2"@) == Target::Base,
        routed("/v2/"@) == Target::Base,
        routed("/v2/_catalog"@) == Target::Catalog,
        routed("/v2/_catalog/"@) == Target::Catalog,
{
    reveal_strlit("/v2");
    reveal_strlit("/v2/");
    reveal_strlit("_catalog");
    reveal_strlit("/v2/_catalog");
    reveal_strlit("/v2/_catalog/");
    let c = "_catalog"@;
    assert(is_plain_segment(c));
    lemma_plain_segment(c);
    let path = "/v2/_catalog"@;
    assert(path.subrange(4, path.len() as int) =~= c);
    assert("/v2/"@.is_prefix_of(path));
    assert(decoded_segments(c) =~= seq![c]);
    assert(path_segments(c) =~= seq![c]);
    a_trailing_slash_says_nothing("/v2"@, c);
    assert("/v2"@ + seq!['/'] + c =~= path);
    assert(path + seq!['/'] =~= "/v2/_catalog/"@);
}

/// A slash at the end of a path makes no difference to where it leads.
#[verifier::rlimit(40)]
pub proof fn a_trailing_slash_says_nothing(left: Seq<char>, last: Seq<char>)
    requires
        left == "/v2"@ || "/v2/"@.is_prefix_of(left),
        is_plain_segment(last),
    ensures
        routed(left + seq!['/'] + last + seq!['/']) == routed(left + seq!['/'] + last),
{
    reveal_strlit("/v2");
    reveal_strlit("/v2/");
    let short = left + seq!['/'] + last;
    let long = short + seq!['/'];
    let rest = short.subrange(4, short.len() as int);
    assert("/v2/"@.is_prefix_of(short)) by {
        if left == "/v2"@ {
            assert("/v2/"@ =~= short.subrange(0, 4));
        } else {
            assert("/v2/"@ =~= short.subrange(0, 4));
        }
    }
    assert("/v2/"@ =~= long.subrange(0, 4));
    assert(long.subrange(4, long.len() as int) =~= rest + seq!['/'] + Seq::<char>::empty());
    lemma_split_at(rest, Seq::empty(), '/');
    lemma_first_index_bounds(Seq::<char>::empty(), '/');
    assert(split(Seq::<char>::empty(), '/') == seq![Seq::<char>::empty()]);
    let longer = rest + seq!['/'] + Seq::<char>::empty();
    lemma_empty_segment();
    assert(decoded_segments(longer) =~= decoded_segments(rest) + seq![Seq::<char>::empty()]);
    assert(decoded_segments(longer).drop_last() =~= decoded_segments(rest));
    lemma_last_segment(left, last, rest);
    assert(path_segments(longer) == path_segments(rest));
}

/// An empty segment is decoded to nothing.
proof fn lemma_empty_segment()
    ensures
        path_decoded(Seq::<char>::empty()) == Seq::<char>::empty(),
{
    let e = Seq::<char>::empty();
    is_ascii_chars_encode_utf8(e);
    let b = encode_utf8(e);
    assert(b.len() == 0);
    lemma_undecoded(b, false);
    encode_utf8_valid_utf8(e);
    encode_utf8_decode_utf8(e);
}

/// The last segment of a path that ends in a plain one is that one.
proof fn lemma_last_segment(left: Seq<char>, last: Seq<char>, rest: Seq<char>)
    requires
        left == "/v2"@ || "/v2/"@.is_prefix_of(left),
        is_plain_segment(last),
        rest == (left + seq!['/'] + last).subrange(4, (left + seq!['/'] + last).len() as int),
    ensures
        decoded_segments(rest).len() > 0,
        decoded_segments(rest).last() == last,
{
    reveal_strlit("/v2");
    reveal_strlit("/v2/");
    lemma_plain_segment(last);
    if left == "/v2"@ {
        assert(rest =~= last);
    } else {
        let front = left.subrange(4, left.len() as int);
        assert(rest =~= front + seq!['/'] + last);
        lemma_split_at(front, last, '/');
        assert(split(rest, '/').last() == last);
    }
}

/// A path with an empty segment in it leads nowhere.
#[verifier::rlimit(40)]
pub proof fn an_empty_segment_leads_nowhere(left: Seq<char>, right: Seq<char>)
    requires
        right.len() > 0,
    ensures
        routed("/v2/"@ + left + "//"@ + right) == Target::NoMatch,
{
    reveal_strlit("/v2");
    reveal_strlit("/v2/");
    reveal_strlit("//");
    let path = "/v2/"@ + left + "//"@ + right;
    let rest = path.subrange(4, path.len() as int);
    assert("/v2/"@ =~= path.subrange(0, 4));
    let e = Seq::<char>::empty();
    assert(rest =~= left + seq!['/'] + (e + seq!['/'] + right));
    lemma_split_at(left, e + seq!['/'] + right, '/');
    lemma_split_at(e, right, '/');
    lemma_first_index_bounds(e, '/');
    lemma_empty_segment();
    splitting_is_undone_by_joining(right, '/');
    let n = split(left, '/').len();
    let s = path_segments(rest);
    assert(split(rest, '/')[n as int] == e);
    assert(s[n as int].len() == 0);
}

/// Where a path has an endpoint's shape but its name violates the grammar, it is the
/// name that is refused, and the name is told.
pub proof fn a_bad_name_is_told(name: Seq<char>, x: Seq<char>)
    requires
        has_plain_parts(name),
        is_plain_segment(x),
        !is_name(name),
    ensures
        routed(manifest_path(name, x)) == Target::InvalidName(name),
        routed(blob_path(name, x)) == Target::InvalidName(name),
        routed(upload_path(name, x)) == Target::InvalidName(name),
        routed("/v2/"@ + name + "/tags/list"@) == Target::InvalidName(name),
        routed("/v2/"@ + name + "/referrers/"@ + x) == Target::InvalidName(name),
{
    lemma_manifest_shape(name, x);
    lemma_blob_shape(name, x);
    lemma_upload_shape(name, x);
    lemma_tag_list_shape(name);
    lemma_referrers_shape(name, x);
}

#[verifier::rlimit(40)]
proof fn lemma_manifest_shape(name: Seq<char>, x: Seq<char>)
    requires
        has_plain_parts(name),
        is_plain_segment(x),
    ensures
        routed(manifest_path(name, x)) == checked(name, Target::Manifest { name, reference: x }),
{
    reveal_strlit("/manifests/");
    reveal_strlit("manifests");
    reveal_strlit("uploads");
    reveal_strlit("blobs");
    assert("manifests"@.len() == 9 && "blobs"@.len() == 5 && "uploads"@.len() == 7);
    assert("/manifests/"@ =~= seq!['/'] + "manifests"@ + seq!['/']);
    lemma_shape(name, "manifests"@, x, seq!["manifests"@, x], manifest_path(name, x));
}

#[verifier::rlimit(40)]
proof fn lemma_blob_shape(name: Seq<char>, x: Seq<char>)
    requires
        has_plain_parts(name),
        is_plain_segment(x),
    ensures
        x != "uploads"@ ==> routed(blob_path(name, x)) == checked(
            name,
            Target::Blob { name, digest: x },
        ),
        x == "uploads"@ ==> routed(blob_path(name, x)) == checked(name, Target::Uploads { name }),
{
    reveal_strlit("/blobs/");
    reveal_strlit("manifests");
    reveal_strlit("uploads");
    reveal_strlit("blobs");
    assert("manifests"@.len() == 9 && "blobs"@.len() == 5 && "uploads"@.len() == 7);
    assert("/blobs/"@ =~= seq!['/'] + "blobs"@ + seq!['/']);
    lemma_shape(name, "blobs"@, x, seq!["blobs"@, x], blob_path(name, x));
}

#[verifier::rlimit(40)]
proof fn lemma_tag_list_shape(name: Seq<char>)
    requires
        has_plain_parts(name),
    ensures
        routed("/v2/"@ + name + "/tags/list"@) == checked(name, Target::TagList { name }),
{
    reveal_strlit("/tags/list");
    reveal_strlit("manifests");
    reveal_strlit("uploads");
    reveal_strlit("blobs");
    reveal_strlit("tags");
    reveal_strlit("list");
    assert("manifests"@.len() == 9 && "blobs"@.len() == 5 && "uploads"@.len() == 7);
    assert("tags"@.len() == 4);
    assert("/tags/list"@ =~= seq!['/'] + "tags"@ + seq!['/'] + "list"@);
    lemma_shape(
        name,
        "tags"@,
        "list"@,
        seq!["tags"@, "list"@],
        "/v2/"@ + name + "/tags/list"@,
    );
}

#[verifier::rlimit(40)]
proof fn lemma_referrers_shape(name: Seq<char>, x: Seq<char>)
    requires
        has_plain_parts(name),
        is_plain_segment(x),
    ensures
        routed("/v2/"@ + name + "/referrers/"@ + x) == checked(
            name,
            Target::Referrers { name, digest: x },
        ),
{
    reveal_strlit("/referrers/");
    reveal_strlit("manifests");
    reveal_strlit("uploads");
    reveal_strlit("blobs");
    reveal_strlit("tags");
    reveal_strlit("referrers");
    assert("manifests"@.len() == 9 && "blobs"@.len() == 5 && "uploads"@.len() == 7);
    assert("tags"@.len() == 4 && "referrers"@.len() == 9);
    assert("manifests"@[0] != "referrers"@[0]);
    assert("/referrers/"@ =~= seq!['/'] + "referrers"@ + seq!['/']);
    lemma_shape(
        name,
        "referrers"@,
        x,
        seq!["referrers"@, x],
        "/v2/"@ + name + "/referrers/"@ + x,
    );
}

#[verifier::rlimit(40)]
proof fn lemma_upload_shape(name: Seq<char>, x: Seq<char>)
    requires
        has_plain_parts(name),
        is_plain_segment(x),
    ensures
        routed(upload_path(name, x)) == checked(name, Target::Upload { name, id: x }),
{
    reveal_strlit("/blobs/uploads/");
    reveal_strlit("uploads");
    reveal_strlit("blobs");
    let tail = seq!["blobs"@, "uploads"@, x];
    lemma_two_joined("blobs"@, "uploads"@);
    assert(tail.drop_last() =~= seq!["blobs"@, "uploads"@]);
    assert(upload_path(name, x) =~= "/v2/"@ + (name + seq!['/'] + joined_by(tail, '/')));
    lemma_routed_resource(upload_path(name, x), name, tail);
    lemma_resource_segments(name, tail);
}

proof fn lemma_shape(
    name: Seq<char>,
    kind: Seq<char>,
    x: Seq<char>,
    tail: Seq<Seq<char>>,
    path: Seq<char>,
)
    requires
        tail == seq![kind, x],
        has_plain_parts(name),
        is_plain_segment(kind),
        is_plain_segment(x),
        kind != "uploads"@,
        path =~= "/v2/"@ + name + seq!['/'] + kind + seq!['/'] + x,
    ensures
        routed(path) == matched(split(name, '/') + tail),
        forall|i: int|
            0 <= i < (split(name, '/') + tail).len() ==> (#[trigger] (split(name, '/') + tail)[i]).len()
                > 0,
        split(name, '/').len() > 0,
        name_left_of(split(name, '/') + tail, 2) == name,
{
    lemma_two_joined(kind, x);
    assert(path =~= "/v2/"@ + (name + seq!['/'] + joined_by(tail, '/')));
    lemma_routed_resource(path, name, tail);
    lemma_resource_segments(name, tail);
}

/// Which surface answers is told by a path's first segment alone: whatever lies at or
/// below `/v2` is the registry's, whatever lies at or below `/api` is discovery's, and
/// the pages have the rest.
pub proof fn surfaces_are_told_by_the_first_segment(first: Seq<char>, rest: Seq<char>)
    requires
        !first.contains('/'),
    ensures
        first == "v2"@ ==> surface_of(seq!['/'] + first) == Surface::Registry,
        first == "v2"@ ==> surface_of(seq!['/'] + first + seq!['/'] + rest) == Surface::Registry,
        first == "api"@ ==> surface_of(seq!['/'] + first) == Surface::Discovery,
        first == "api"@ ==> surface_of(seq!['/'] + first + seq!['/'] + rest) == Surface::Discovery,
        first != "v2"@ && first != "api"@ ==> surface_of(seq!['/'] + first) == Surface::Pages,
        first != "v2"@ && first != "api"@ ==> surface_of(seq!['/'] + first + seq!['/'] + rest)
            == Surface::Pages,
{
    reveal_strlit("/v2");
    reveal_strlit("/api");
    reveal_strlit("v2");
    reveal_strlit("api");
    lemma_first_segment(first, rest, "v2"@, "/v2"@);
    lemma_first_segment(first, rest, "api"@, "/api"@);
    assert("v2"@.len() == 2 && "api"@.len() == 3);
}

#[verifier::rlimit(40)]
proof fn lemma_first_segment(first: Seq<char>, rest: Seq<char>, s: Seq<char>, prefix: Seq<char>)
    requires
        !first.contains('/'),
        !s.contains('/'),
        prefix =~= seq!['/'] + s,
    ensures
        lies_under(seq!['/'] + first, prefix) == (first == s),
        lies_under(seq!['/'] + first + seq!['/'] + rest, prefix) == (first == s),
{
    let short = seq!['/'] + first;
    let long = seq!['/'] + first + seq!['/'] + rest;
    let below = prefix + seq!['/'];
    if first == s {
        assert(short =~= prefix);
        assert(below =~= long.subrange(0, below.len() as int));
    } else {
        if short == prefix {
            assert(first =~= short.subrange(1, short.len() as int));
            assert(s =~= prefix.subrange(1, prefix.len() as int));
        }
        if below.is_prefix_of(short) {
            let n = prefix.len() as int;
            assert(short[n] == below[n]);
            assert(first[n - 1] == '/');
            assert(first.contains('/'));
        }
        if long == prefix {
            let n = first.len() as int;
            assert(prefix[n + 1] == '/');
            assert(s[n] == '/');
            assert(s.contains('/'));
        }
        if below.is_prefix_of(long) {
            assert(below =~= long.subrange(0, below.len() as int));
            let n = s.len() as int;
            let m = first.len() as int;
            assert(below[n + 1] == '/');
            assert(long[m + 1] == '/');
            if n < m {
                assert(long[n + 1] == below[n + 1]);
                assert(first[n] == '/');
                assert(first.contains('/'));
            } else if m < n {
                assert(long[m + 1] == below[m + 1]);
                assert(s[m] == '/');
                assert(s.contains('/'));
            } else {
                assert forall|i: int| 0 <= i < n implies first[i] == s[i] by {
                    assert(long[i + 1] == below[i + 1]);
                }
                assert(first =~= s);
            }
        }
    }
}

} // verus!
