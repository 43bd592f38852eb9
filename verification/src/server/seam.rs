//! What the handlers say to a registry, and what it says back.
//!
//! Everything below the wire is reached through [`Registry`], one narrow trait, so
//! that the sharp edges of the protocol are decided above storage and hold
//! whatever a registry answers.
use vstd::prelude::*;

use crate::digest::Digest;
use crate::server::range::ByteRange;
use crate::server::reference::{Reference, Referred};

verus! {

/// One page of an ordered scan.
#[derive(Debug, Clone, PartialEq, Eq)]
pub struct Page<T> {
    pub items: Vec<T>,
    /// Whether a key exists beyond this page. Determined by peeking one past the
    /// limit, never by "the page was full".
    pub more: bool,
}

impl<T> Page<T> {
    pub fn empty() -> (r: Page<T>)
        ensures
            r.items@.len() == 0,
            !r.more,
    {
        Page { items: Vec::new(), more: false }
    }
}

/// Everything a `HEAD` on a manifest needs, which is also everything a `GET` needs
/// besides the bytes. `media_type` is what the client pushed, verbatim.
#[derive(Debug)]
pub struct ManifestStat {
    pub digest: Digest,
    pub media_type: String,
    pub size: u64,
}

/// What a manifest `PUT` reports back.
#[derive(Debug)]
pub struct ManifestPut {
    /// Digest of the bytes as received.
    pub digest: Digest,
    /// The manifest's `subject`, if it had one.
    pub subject: Option<Digest>,
    /// Tags applied from `?tag=` parameters.
    pub tags: Vec<String>,
}

/// A blob on its way to the socket. `C` is its content, which may be a stream.
#[derive(Debug)]
pub struct BlobRead<C> {
    /// Full size of the blob.
    pub total_size: u64,
    /// The window being served. `None` means the whole blob.
    pub window: Option<ByteRange>,
    pub body: C,
}

/// One entry of a referrers image index.
#[derive(Debug)]
pub struct Descriptor {
    pub media_type: String,
    pub digest: Digest,
    pub size: u64,
    pub artifact_type: Option<String>,
    pub annotations: Vec<(String, String)>,
}

/// A referrers response.
#[derive(Debug)]
pub struct Referrers {
    pub manifests: Vec<Descriptor>,
    /// Whether the `?artifactType=` filter was applied.
    pub filter_applied: bool,
    /// Referrer digest to resume after, or `None` when the scan is exhausted. The
    /// cursor advances over the *scanned* edges, so `manifests` can be short, even
    /// empty, with `next` still set.
    pub next: Option<Digest>,
}

/// A blob body arriving on a push. `B` is its content, which may be a stream.
///
/// The two limits travel with the body because only the consumer can enforce them:
/// neither is known to be broken before the bytes have arrived.
#[derive(Debug)]
pub struct UploadBody<B> {
    pub body: B,
    /// The length that the client declared, when it did.
    pub declared: Option<u64>,
    /// Hard ceiling on the bytes this one request may carry, if there is one.
    pub limit: Option<u64>,
}

/// The ceiling that a limit sets.
pub open spec fn ceiling(limit: Option<u64>) -> u64 {
    match limit {
        Some(n) => n,
        None => u64::MAX,
    }
}

/// Why a whole body of `len` bytes is refused.
pub open spec fn body_objection(len: nat, declared: Option<u64>, limit: Option<u64>) -> Option<
    OpsError,
> {
    if declared matches Some(n) && n > ceiling(limit) {
        Some(OpsError::BodyTooLarge { limit: ceiling(limit) })
    } else if len > ceiling(limit) {
        Some(OpsError::BodyTooLarge { limit: ceiling(limit) })
    } else if declared matches Some(n) && n != len {
        Some(OpsError::SizeMismatch { declared: declared->0, actual: len as u64 })
    } else {
        None
    }
}

impl UploadBody<Vec<u8>> {
    /// The whole body, under both limits. For a registry that has nowhere to
    /// stream to.
    pub fn collect(self) -> (r: OpsResult<Vec<u8>>)
        ensures
            r == match body_objection(self.body@.len(), self.declared, self.limit) {
                Some(e) => Err::<Vec<u8>, OpsError>(e),
                None => Ok(self.body),
            },
    {
        let limit = match self.limit {
            Some(n) => n,
            None => u64::MAX,
        };
        if let Some(declared) = self.declared {
            if declared > limit {
                return Err(OpsError::BodyTooLarge { limit });
            }
        }
        let actual = self.body.len() as u64;
        if actual > limit {
            return Err(OpsError::BodyTooLarge { limit });
        }
        if let Some(declared) = self.declared {
            if declared != actual {
                return Err(OpsError::SizeMismatch { declared, actual });
            }
        }
        Ok(self.body)
    }
}

/// How far a bounded count scans before it reports a floor instead of a total.
pub const COUNT_CEILING: u64 = 10_000;

/// How many tags one manifest row reports.
pub const TAGS_PER_MANIFEST: usize = 8;

/// A count that may have stopped early.
#[derive(Debug, Clone, Copy, PartialEq, Eq, Structural)]
pub struct Tally {
    pub count: u64,
    /// `false` when the scan hit [`COUNT_CEILING`], which makes `count` a floor
    /// rather than a total.
    pub complete: bool,
}

impl Tally {
    pub fn exact(count: u64) -> (r: Tally)
        ensures
            r == (Tally { count, complete: true }),
    {
        Tally { count, complete: true }
    }
}

/// One row of the repository list.
#[derive(Debug)]
pub struct RepoSummary {
    pub name: String,
    pub tags: Tally,
    pub manifests: Tally,
}

/// Everything a repository's own page shows above its lists.
#[derive(Debug)]
pub struct RepoDetail {
    pub name: String,
    pub tags: Tally,
    pub manifests: Tally,
    pub blobs: Tally,
    /// Summed over the blobs that `blobs` counted, so a floor whenever
    /// `blobs.complete` is `false`.
    pub size_bytes: u64,
}

/// A manifest as the discovery API describes it.
#[derive(Debug)]
pub struct ManifestInfo {
    pub digest: Digest,
    pub media_type: String,
    /// Size of the manifest document itself.
    pub size: u64,
    /// Bytes of the blobs this manifest directly references, config and layers.
    pub blob_size: u64,
    pub artifact_type: Option<String>,
    pub subject: Option<Digest>,
    pub pushed_at: u64,
    /// `os/arch[/variant]`, once per platform.
    pub platforms: Vec<String>,
    /// Count of the blobs that `blob_size` sums.
    pub blobs: u64,
    /// Child manifests, for an index.
    pub children: u64,
    /// Tags pointing at this manifest, at most [`TAGS_PER_MANIFEST`] of them.
    pub tags: Vec<String>,
    pub annotations: Vec<(String, String)>,
}

/// A tag with the manifest it resolves to.
#[derive(Debug)]
pub struct TagInfo {
    pub name: String,
    pub digest: Digest,
    pub tagged_at: u64,
    /// `None` when the manifest is gone: the row says what it knows.
    pub manifest: Option<ManifestInfo>,
}

/// Something that happened to a tag.
#[derive(Debug)]
pub struct TagEventInfo {
    /// Unix milliseconds.
    pub at: u64,
    pub tag: String,
    pub digest: Digest,
    pub deleted: bool,
    pub media_type: String,
    pub size: u64,
}

/// Where a tag history goes on.
#[derive(Debug)]
pub struct HistoryCursor {
    pub before: u64,
    pub last: String,
}

/// A page of tag events, and where the next one begins.
pub type History = (Vec<TagEventInfo>, Option<HistoryCursor>);

/// Failures a registry can report, in the vocabulary of the protocol.
#[derive(Debug)]
pub enum OpsError {
    RepoUnknown,
    ManifestUnknown,
    BlobUnknown,
    UploadUnknown,
    /// A chunk did not begin at the committed offset, which is `current` and is
    /// left untouched.
    OffsetMismatch { current: u64 },
    /// The bytes did not hash to the digest the client named.
    DigestMismatch,
    /// The body did not carry the number of bytes the client declared.
    SizeMismatch { declared: u64, actual: u64 },
    /// The body exceeded the per-request ceiling.
    BodyTooLarge { limit: u64 },
    /// The body ended early or the connection failed part-way through.
    BodyIncomplete(String),
    /// The manifest could not be parsed well enough to index it.
    ManifestInvalid(String),
    /// The manifest named a layer or a child manifest this repository does not
    /// have: the document is well-formed, and the fix is to push the blob.
    ManifestBlobUnknown { digest: Digest },
    Internal(String),
}

pub type OpsResult<T> = Result<T, OpsError>;

/// One thing asked of a registry, and its answer.
pub enum Event<B, C> {
    ReadWhole(B, usize, Option<Vec<u8>>),
    Repositories(Option<Seq<char>>, usize, OpsResult<Page<String>>),
    Tags(Seq<char>, Option<Seq<char>>, usize, OpsResult<Page<String>>),
    StatManifest(Seq<char>, Referred, OpsResult<ManifestStat>),
    GetManifest(Seq<char>, Referred, OpsResult<(ManifestStat, Vec<u8>)>),
    PutManifest(
        Seq<char>,
        Referred,
        Seq<char>,
        Seq<Seq<char>>,
        Seq<u8>,
        OpsResult<ManifestPut>,
    ),
    DeleteManifest(Seq<char>, Referred, OpsResult<()>),
    StatBlob(Seq<char>, Digest, OpsResult<u64>),
    GetBlob(Seq<char>, Digest, Option<ByteRange>, OpsResult<BlobRead<C>>),
    DeleteBlob(Seq<char>, Digest, OpsResult<()>),
    MountBlob(Seq<char>, Digest, Option<Seq<char>>, OpsResult<bool>),
    CreateUpload(Seq<char>, Seq<char>, Seq<char>, OpsResult<()>),
    UploadOffset(Seq<char>, Seq<char>, OpsResult<u64>),
    AppendUpload(Seq<char>, Seq<char>, u64, UploadBody<B>, OpsResult<u64>),
    FinishUpload(Seq<char>, Seq<char>, u64, UploadBody<B>, Digest, OpsResult<()>),
    CancelUpload(Seq<char>, Seq<char>, OpsResult<()>),
    PutBlob(Seq<char>, Digest, UploadBody<B>, OpsResult<()>),
    Referrers(Seq<char>, Digest, Option<Seq<char>>, Option<Digest>, usize, OpsResult<Referrers>),
    RepositorySummaries(
        Seq<char>,
        Option<Seq<char>>,
        usize,
        OpsResult<Page<RepoSummary>>,
    ),
    RepositoryDetail(Seq<char>, OpsResult<RepoDetail>),
    TagDetails(Seq<char>, Option<Seq<char>>, usize, OpsResult<Page<TagInfo>>),
    ManifestDetails(Seq<char>, Option<Digest>, usize, OpsResult<Page<ManifestInfo>>),
    ManifestDetail(Seq<char>, Referred, OpsResult<ManifestInfo>),
    TagHistory(Seq<char>, Referred, Option<u64>, Option<Seq<char>>, usize, OpsResult<History>),
}

/// What an optional borrowed text is.
pub open spec fn optional_text(s: Option<&str>) -> Option<Seq<char>> {
    match s {
        Some(t) => Some(t@),
        None => None,
    }
}

/// What an optional borrowed digest is.
pub open spec fn optional_digest(d: Option<&Digest>) -> Option<Digest> {
    match d {
        Some(d) => Some(*d),
        None => None,
    }
}

/// The one trait the handlers depend on.
///
/// A registry may answer anything, so all that is said of it here is what it was
/// asked, in `log`, and that each exchange is one of its `steps` from what it held
/// to what it holds. The handlers' contracts say what they ask and what they make of
/// each answer; what the answers are worth is for each registry to say.
pub trait Registry: Sized {
    /// A pushed body on its way in.
    type Body;

    /// A blob's content on its way out.
    type Content;

    /// What a registry holds.
    type Holding;

    /// Everything asked so far, with the answers. A registry that is not itself
    /// verified leaves it unsaid.
    open spec fn log(&self) -> Seq<Event<Self::Body, Self::Content>> {
        arbitrary()
    }

    /// What is held now.
    open spec fn held(&self) -> Self::Holding {
        arbitrary()
    }

    /// Whether what is asked and answered leads from one holding to the next.
    open spec fn steps(
        before: Self::Holding,
        e: Event<Self::Body, Self::Content>,
        after: Self::Holding,
    ) -> bool {
        true
    }

    /// The whole of a body, or `None` if it has more than `limit` bytes or breaks off.
    fn read_whole(&mut self, body: Self::Body, limit: usize) -> (r: Option<Vec<u8>>)
        ensures
            final(self).log() == old(self).log().push(Event::ReadWhole(body, limit, r)),
            Self::steps(old(self).held(), Event::ReadWhole(body, limit, r), final(self).held()),
            r matches Some(bytes) ==> bytes@.len() <= limit,
    ;

    /// Repository names in byte order, starting strictly after `last`.
    fn repositories(&mut self, last: Option<&str>, limit: usize) -> (r: OpsResult<Page<String>>)
        ensures
            final(self).log() == old(self).log().push(
                Event::Repositories(optional_text(last), limit, r),
            ),
            Self::steps(
                old(self).held(),
                Event::Repositories(optional_text(last), limit, r),
                final(self).held(),
            ),
    ;

    /// Tags in byte order, starting strictly after `last`.
    /// `Err(OpsError::RepoUnknown)` when the repository does not exist.
    fn tags(&mut self, name: &str, last: Option<&str>, limit: usize) -> (r: OpsResult<Page<String>>)
        ensures
            final(self).log() == old(self).log().push(
                Event::Tags(name@, optional_text(last), limit, r),
            ),
            Self::steps(
                old(self).held(),
                Event::Tags(name@, optional_text(last), limit, r),
                final(self).held(),
            ),
    ;

    /// Metadata only: a `HEAD` is never a `GET` with the body thrown away.
    fn stat_manifest(&mut self, name: &str, reference: &Reference) -> (r: OpsResult<ManifestStat>)
        ensures
            final(self).log() == old(self).log().push(
                Event::StatManifest(name@, reference.deep_view(), r),
            ),
            Self::steps(
                old(self).held(),
                Event::StatManifest(name@, reference.deep_view(), r),
                final(self).held(),
            ),
    ;

    /// The manifest exactly as pushed.
    fn get_manifest(&mut self, name: &str, reference: &Reference) -> (r: OpsResult<
        (ManifestStat, Vec<u8>),
    >)
        ensures
            final(self).log() == old(self).log().push(
                Event::GetManifest(name@, reference.deep_view(), r),
            ),
            Self::steps(
                old(self).held(),
                Event::GetManifest(name@, reference.deep_view(), r),
                final(self).held(),
            ),
    ;

    /// `tags` carries any `?tag=` parameters, already held to the tag grammar.
    fn put_manifest(
        &mut self,
        name: &str,
        reference: &Reference,
        content_type: &str,
        tags: &Vec<String>,
        body: Vec<u8>,
    ) -> (r: OpsResult<ManifestPut>)
        ensures
            final(self).log() == old(self).log().push(
                Event::PutManifest(
                    name@,
                    reference.deep_view(),
                    content_type@,
                    tags.deep_view(),
                    body@,
                    r,
                ),
            ),
            Self::steps(
                old(self).held(),
                Event::PutManifest(
                    name@,
                    reference.deep_view(),
                    content_type@,
                    tags.deep_view(),
                    body@,
                    r,
                ),
                final(self).held(),
            ),
    ;

    /// Deleting by digest cascades to every tag pointing at it; deleting by tag
    /// leaves the manifest reachable by digest.
    fn delete_manifest(&mut self, name: &str, reference: &Reference) -> (r: OpsResult<()>)
        ensures
            final(self).log() == old(self).log().push(
                Event::DeleteManifest(name@, reference.deep_view(), r),
            ),
            Self::steps(
                old(self).held(),
                Event::DeleteManifest(name@, reference.deep_view(), r),
                final(self).held(),
            ),
    ;

    /// Size of a blob servable under `name`. Membership is per repository.
    fn stat_blob(&mut self, name: &str, digest: &Digest) -> (r: OpsResult<u64>)
        ensures
            final(self).log() == old(self).log().push(Event::StatBlob(name@, *digest, r)),
            Self::steps(old(self).held(), Event::StatBlob(name@, *digest, r), final(self).held()),
    ;

    /// The blob, or a window of it.
    fn get_blob(&mut self, name: &str, digest: &Digest, window: Option<ByteRange>) -> (r: OpsResult<
        BlobRead<Self::Content>,
    >)
        requires
            window matches Some(w) ==> w.start <= w.end < u64::MAX,
        ensures
            final(self).log() == old(self).log().push(Event::GetBlob(name@, *digest, window, r)),
            Self::steps(
                old(self).held(),
                Event::GetBlob(name@, *digest, window, r),
                final(self).held(),
            ),
    ;

    /// Removes the blob's membership of `name` only.
    fn delete_blob(&mut self, name: &str, digest: &Digest) -> (r: OpsResult<()>)
        ensures
            final(self).log() == old(self).log().push(Event::DeleteBlob(name@, *digest, r)),
            Self::steps(old(self).held(), Event::DeleteBlob(name@, *digest, r), final(self).held()),
    ;

    /// Cross-repository mount. `Ok(true)` mounted, `Ok(false)` refused: a refusal
    /// is not an error. Without `from`, from anywhere.
    fn mount_blob(&mut self, name: &str, digest: &Digest, from: Option<&str>) -> (r: OpsResult<bool>)
        ensures
            final(self).log() == old(self).log().push(
                Event::MountBlob(name@, *digest, optional_text(from), r),
            ),
            Self::steps(
                old(self).held(),
                Event::MountBlob(name@, *digest, optional_text(from), r),
                final(self).held(),
            ),
    ;

    /// `algorithm` selects which hasher the session carries.
    fn create_upload(&mut self, name: &str, id: &str, algorithm: &str) -> (r: OpsResult<()>)
        ensures
            final(self).log() == old(self).log().push(
                Event::CreateUpload(name@, id@, algorithm@, r),
            ),
            Self::steps(
                old(self).held(),
                Event::CreateUpload(name@, id@, algorithm@, r),
                final(self).held(),
            ),
    ;

    /// Committed byte count, without any side effect.
    fn upload_offset(&mut self, name: &str, id: &str) -> (r: OpsResult<u64>)
        ensures
            final(self).log() == old(self).log().push(Event::UploadOffset(name@, id@, r)),
            Self::steps(old(self).held(), Event::UploadOffset(name@, id@, r), final(self).held()),
    ;

    /// Append at `expected_offset`, returning the new committed offset. The offset
    /// is checked here as well as in the handler, because only here can that be
    /// atomic with the write.
    fn append_upload(
        &mut self,
        name: &str,
        id: &str,
        expected_offset: u64,
        body: UploadBody<Self::Body>,
    ) -> (r: OpsResult<u64>)
        ensures
            final(self).log() == old(self).log().push(
                Event::AppendUpload(name@, id@, expected_offset, body, r),
            ),
            Self::steps(
                old(self).held(),
                Event::AppendUpload(name@, id@, expected_offset, body, r),
                final(self).held(),
            ),
    ;

    /// Append an optional final chunk, verify the whole-blob digest, and commit.
    /// On mismatch nothing is committed.
    fn finish_upload(
        &mut self,
        name: &str,
        id: &str,
        expected_offset: u64,
        body: UploadBody<Self::Body>,
        digest: &Digest,
    ) -> (r: OpsResult<()>)
        ensures
            final(self).log() == old(self).log().push(
                Event::FinishUpload(name@, id@, expected_offset, body, *digest, r),
            ),
            Self::steps(
                old(self).held(),
                Event::FinishUpload(name@, id@, expected_offset, body, *digest, r),
                final(self).held(),
            ),
    ;

    fn cancel_upload(&mut self, name: &str, id: &str) -> (r: OpsResult<()>)
        ensures
            final(self).log() == old(self).log().push(Event::CancelUpload(name@, id@, r)),
            Self::steps(old(self).held(), Event::CancelUpload(name@, id@, r), final(self).held()),
    ;

    /// Push a whole blob in one request.
    fn put_blob(&mut self, name: &str, digest: &Digest, body: UploadBody<Self::Body>) -> (r:
        OpsResult<()>)
        ensures
            final(self).log() == old(self).log().push(Event::PutBlob(name@, *digest, body, r)),
            Self::steps(
                old(self).held(),
                Event::PutBlob(name@, *digest, body, r),
                final(self).held(),
            ),
    ;

    /// Manifests in `name` whose `subject` is `subject`. An unknown subject is an
    /// empty list. `last` is a referrer to resume strictly after, and `limit`
    /// bounds the edges *scanned*, not the descriptors returned.
    fn referrers(
        &mut self,
        name: &str,
        subject: &Digest,
        artifact_type: Option<&str>,
        last: Option<&Digest>,
        limit: usize,
    ) -> (r: OpsResult<Referrers>)
        ensures
            final(self).log() == old(self).log().push(
                Event::Referrers(
                    name@,
                    *subject,
                    optional_text(artifact_type),
                    optional_digest(last),
                    limit,
                    r,
                ),
            ),
            Self::steps(
                old(self).held(),
                Event::Referrers(
                    name@,
                    *subject,
                    optional_text(artifact_type),
                    optional_digest(last),
                    limit,
                    r,
                ),
                final(self).held(),
            ),
    ;
}

/// What a registry is asked beyond the protocol, by the web pages.
pub trait Discovery: Registry {
    /// Repository names with their tag and manifest counts, in name order, of the
    /// names that begin with `prefix`. A count is bounded by [`COUNT_CEILING`].
    fn repository_summaries(&mut self, prefix: &str, last: Option<&str>, limit: usize) -> (r: OpsResult<Page<RepoSummary>>)
        ensures
            final(self).log() == old(self).log().push(
                Event::RepositorySummaries(prefix@, optional_text(last), limit, r),
            ),
            Self::steps(
                old(self).held(),
                Event::RepositorySummaries(prefix@, optional_text(last), limit, r),
                final(self).held(),
            ),
    ;

    /// Counts and size for one repository.
    fn repository_detail(&mut self, name: &str) -> (r: OpsResult<RepoDetail>)
        ensures
            final(self).log() == old(self).log().push(
                Event::RepositoryDetail(name@, r),
            ),
            Self::steps(
                old(self).held(),
                Event::RepositoryDetail(name@, r),
                final(self).held(),
            ),
    ;

    /// Tags in name order, each resolved to the manifest it points at.
    fn tag_details(&mut self, name: &str, last: Option<&str>, limit: usize) -> (r: OpsResult<Page<TagInfo>>)
        ensures
            final(self).log() == old(self).log().push(
                Event::TagDetails(name@, optional_text(last), limit, r),
            ),
            Self::steps(
                old(self).held(),
                Event::TagDetails(name@, optional_text(last), limit, r),
                final(self).held(),
            ),
    ;

    /// Manifests in digest order, each with the tags pointing at it.
    fn manifest_details(&mut self, name: &str, last: Option<&Digest>, limit: usize) -> (r: OpsResult<Page<ManifestInfo>>)
        ensures
            final(self).log() == old(self).log().push(
                Event::ManifestDetails(name@, optional_digest(last), limit, r),
            ),
            Self::steps(
                old(self).held(),
                Event::ManifestDetails(name@, optional_digest(last), limit, r),
                final(self).held(),
            ),
    ;

    /// One manifest, or [`OpsError::ManifestUnknown`].
    fn manifest_detail(&mut self, name: &str, reference: &Reference) -> (r: OpsResult<ManifestInfo>)
        ensures
            final(self).log() == old(self).log().push(
                Event::ManifestDetail(name@, reference.deep_view(), r),
            ),
            Self::steps(
                old(self).held(),
                Event::ManifestDetail(name@, reference.deep_view(), r),
                final(self).held(),
            ),
    ;

    /// What happened to a tag, or to the tags of a digest, newest first. `before`
    /// with `last` is the exact place where an earlier page stopped: two events can
    /// share an instant.
    fn tag_history(
        &mut self,
        name: &str,
        reference: &Reference,
        before: Option<u64>,
        last: Option<&str>,
        limit: usize,
    ) -> (r: OpsResult<History>)
        ensures
            final(self).log() == old(self).log().push(
                Event::TagHistory(name@, reference.deep_view(), before, optional_text(last), limit, r),
            ),
            Self::steps(
                old(self).held(),
                Event::TagHistory(name@, reference.deep_view(), before, optional_text(last), limit, r),
                final(self).held(),
            ),
    ;
}

} // verus!
