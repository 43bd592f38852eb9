//! What each exchange with the registry in memory answers, what it leaves, and what it
//! leaves alone.
use vstd::prelude::*;
use vstd::utf8::*;

use crate::bytes::{lex_irreflexive, lex_lt};
use crate::digest::Digest;
use crate::server::memory::{
    at_most, edges, is_after, is_page, is_step, of_type, pages_keys, rest_after, verifies, Holdings,
    ManifestModel, RepoModel, SessionModel,
};
use crate::server::range::ByteRange;
use crate::server::reference::Referred;
use crate::server::seam::{
    BlobRead, Event, ManifestPut, ManifestStat, OpsError, OpsResult, Page, Referrers, UploadBody,
};
use crate::storage::algorithm::DigestAlgorithm;
use crate::storage::hasher::capacity;
use crate::table::{ascending, lists, Key};

verus! {

/// Everything but one repository is as it was.
pub open spec fn only_repo(h: Holdings, after: Holdings, name: Seq<char>) -> bool {
    &&& after.uploads == h.uploads
    &&& forall|other: Seq<char>|
        other != name ==> #[trigger] after.repos.contains_key(other) == h.repos.contains_key(other)
            && (h.repos.contains_key(other) ==> after.repos[other] == h.repos[other])
}

// --- manifests --------------------------------------------------------------------

/// A push stores what was pushed under the digest that it hashes to, byte for byte
/// and with the type it was pushed as, and points its tags there. No other manifest,
/// no other tag, no blob and no other repository changes.
pub proof fn a_push_stores_the_manifest_and_its_tags(
    h: Holdings,
    name: Seq<char>,
    reference: Referred,
    kind: Seq<char>,
    tags: Seq<Seq<char>>,
    body: Seq<u8>,
    put: ManifestPut,
    after: Holdings,
    other: Digest,
    tag: Seq<char>,
)
    requires
        is_step(h, Event::PutManifest(name, reference, kind, tags, body, Ok(put)), after),
        reference is Tag ==> exists|d: Digest| d is Sha256 && #[trigger] verifies(d, body),
    ensures
        verifies(put.digest, body),
        match reference {
            Referred::Digest(d) => put.digest == d,
            Referred::Tag(_) => put.digest is Sha256,
        },
        put.tags.deep_view() == tags,
        only_repo(h, after, name),
        after.repos.contains_key(name),
        after.repos[name].manifests.contains_key(put.digest),
        after.repos[name].manifests[put.digest].body == body,
        after.repos[name].manifests[put.digest].media_type == kind,
        ({
            let was = if h.repos.contains_key(name) {
                h.repos[name]
            } else {
                RepoModel { tags: Map::empty(), manifests: Map::empty(), blobs: Map::empty() }
            };
            let now = after.repos[name];
            &&& now.blobs == was.blobs
            &&& other != put.digest ==> now.manifests.contains_key(other)
                == was.manifests.contains_key(other) && (was.manifests.contains_key(other)
                ==> now.manifests[other] == was.manifests[other])
            &&& if reference == Referred::Tag(tag) || tags.contains(tag) {
                now.tags.contains_key(tag) && now.tags[tag] == put.digest
            } else {
                now.tags.contains_key(tag) == was.tags.contains_key(tag) && (was.tags.contains_key(
                    tag,
                ) ==> now.tags[tag] == was.tags[tag])
            }
        }),
{
    let m = ManifestModel {
        media_type: kind,
        body,
        described: crate::server::manifest_json::description_of(body),
    };
    let held = h.repo_or_new(name).with_manifest(put.digest, m);
    let tagged = match reference {
        Referred::Tag(t) => held.with_tag(t, put.digest),
        Referred::Digest(_) => held,
    };
    lemma_tags(tagged, tags, put.digest, tag);
    if reference is Tag {
        let d = choose|d: Digest| d is Sha256 && #[trigger] verifies(d, body);
        let s = crate::server::memory::sha256_of(body);
        assert(s is Sha256 && crate::storage::hasher::is_digest_of(s, body));
        crate::storage::hasher::digests_of_content_agree(s, d, body);
    }
}

proof fn lemma_tags(repo: RepoModel, tags: Seq<Seq<char>>, digest: Digest, tag: Seq<char>)
    ensures
        ({
            let now = repo.with_tags(tags, digest);
            &&& now.manifests == repo.manifests
            &&& now.blobs == repo.blobs
            &&& tags.contains(tag) ==> now.tags.contains_key(tag) && now.tags[tag] == digest
            &&& !tags.contains(tag) ==> now.tags.contains_key(tag) == repo.tags.contains_key(tag)
                && (repo.tags.contains_key(tag) ==> now.tags[tag] == repo.tags[tag])
        }),
    decreases tags.len(),
{
    if tags.len() > 0 {
        let head = tags.drop_last();
        lemma_tags(repo, head, digest, tag);
        if tags.contains(tag) && tag != tags.last() {
            let i = choose|i: int| 0 <= i < tags.len() && tags[i] == tag;
            assert(head[i] == tag);
        }
        if head.contains(tag) {
            let i = choose|i: int| 0 <= i < head.len() && head[i] == tag;
            assert(tags[i] == tag);
        }
        assert(tags[tags.len() - 1] == tags.last());
    }
}

/// A push is refused only where it was claimed to be what it is not, or is too large
/// to hash; a refused push changes nothing.
pub proof fn a_push_is_refused_only_for_its_digest(
    h: Holdings,
    name: Seq<char>,
    reference: Referred,
    kind: Seq<char>,
    tags: Seq<Seq<char>>,
    body: Seq<u8>,
    r: OpsResult<ManifestPut>,
    after: Holdings,
)
    requires
        is_step(h, Event::PutManifest(name, reference, kind, tags, body, r), after),
    ensures
        r is Err ==> after == h,
        reference matches Referred::Digest(d) ==> (r is Ok <==> verifies(d, body)) && (r is Err
            ==> r == Err::<ManifestPut, OpsError>(OpsError::DigestMismatch)),
        reference is Tag && body.len() <= capacity(DigestAlgorithm::Sha256) ==> r is Ok,
{
}

/// A manifest is read as it is held: by its digest, or by a tag that points at it. The
/// two ways of asking agree. What is not there is unknown, and reading changes
/// nothing.
pub proof fn a_manifest_is_read_as_it_is_held(
    h: Holdings,
    name: Seq<char>,
    reference: Referred,
    stat: OpsResult<ManifestStat>,
    got: OpsResult<(ManifestStat, Vec<u8>)>,
    one: Holdings,
    two: Holdings,
    digest: Digest,
)
    requires
        is_step(h, Event::StatManifest(name, reference, stat), one),
        is_step(h, Event::GetManifest(name, reference, got), two),
    ensures
        one == h,
        two == h,
        h.repos.contains_key(name) && h.repos[name].manifests.contains_key(digest) && (reference
            == Referred::Digest(digest) || (reference matches Referred::Tag(t)
            && h.repos[name].tags.contains_key(t) && h.repos[name].tags[t] == digest)) ==> {
            let m = h.repos[name].manifests[digest];
            &&& stat matches Ok(s) && s.digest == digest && s.media_type@ == m.media_type && s.size
                == m.body.len()
            &&& got matches Ok((s, bytes)) && s.digest == digest && s.media_type@ == m.media_type
                && s.size == m.body.len() && bytes@ == m.body
        },
        !h.repos.contains_key(name) ==> stat == Err::<ManifestStat, OpsError>(
            OpsError::RepoUnknown,
        ) && got == Err::<(ManifestStat, Vec<u8>), OpsError>(OpsError::RepoUnknown),
        h.repos.contains_key(name) && (match reference {
            Referred::Digest(d) => !h.repos[name].manifests.contains_key(d),
            Referred::Tag(t) => !h.repos[name].tags.contains_key(t),
        }) ==> stat == Err::<ManifestStat, OpsError>(OpsError::ManifestUnknown) && got == Err::<
            (ManifestStat, Vec<u8>),
            OpsError,
        >(OpsError::ManifestUnknown),
{
}

/// Deleting by tag takes the tag alone; deleting by digest takes the manifest and
/// every tag that points at it. Every other manifest and tag, every blob and every
/// other repository stays. What is not there cannot be deleted.
pub proof fn a_deletion_takes_what_was_named(
    h: Holdings,
    name: Seq<char>,
    reference: Referred,
    r: OpsResult<()>,
    after: Holdings,
    other: Digest,
    tag: Seq<char>,
)
    requires
        is_step(h, Event::DeleteManifest(name, reference, r), after),
    ensures
        !h.repos.contains_key(name) ==> r == Err::<(), OpsError>(OpsError::RepoUnknown) && after == h,
        h.repos.contains_key(name) ==> {
            let was = h.repos[name];
            let there = match reference {
                Referred::Tag(t) => was.tags.contains_key(t),
                Referred::Digest(d) => was.manifests.contains_key(d),
            };
            &&& !there ==> r == Err::<(), OpsError>(OpsError::ManifestUnknown) && after == h
            &&& there ==> {
                let now = after.repos[name];
                &&& r is Ok
                &&& only_repo(h, after, name)
                &&& after.repos.contains_key(name)
                &&& now.blobs == was.blobs
                &&& now.manifests.contains_key(other) == (was.manifests.contains_key(other)
                    && reference != Referred::Digest(other))
                &&& now.manifests.contains_key(other) ==> now.manifests[other]
                    == was.manifests[other]
                &&& now.tags.contains_key(tag) == (was.tags.contains_key(tag) && reference
                    != Referred::Tag(tag) && reference != Referred::Digest(was.tags[tag]))
                &&& now.tags.contains_key(tag) ==> now.tags[tag] == was.tags[tag]
            }
        },
{
}

// --- blobs ------------------------------------------------------------------------

/// A blob is served from the repositories that hold it, and no others: whole, or the
/// bytes from the window's first to its last. Serving changes nothing.
pub proof fn a_blob_is_served_where_it_is_held(
    h: Holdings,
    name: Seq<char>,
    digest: Digest,
    window: Option<ByteRange>,
    size: OpsResult<u64>,
    read: OpsResult<BlobRead<Vec<u8>>>,
    one: Holdings,
    two: Holdings,
)
    requires
        is_step(h, Event::StatBlob(name, digest, size), one),
        is_step(h, Event::GetBlob(name, digest, window, read), two),
    ensures
        one == h,
        two == h,
        !(h.repos.contains_key(name) && h.repos[name].blobs.contains_key(digest)) ==> size == Err::<
            u64,
            OpsError,
        >(OpsError::BlobUnknown) && read == Err::<BlobRead<Vec<u8>>, OpsError>(
            OpsError::BlobUnknown,
        ),
        h.repos.contains_key(name) && h.repos[name].blobs.contains_key(digest) ==> {
            let bytes = h.repos[name].blobs[digest];
            &&& bytes.len() <= u64::MAX ==> (size matches Ok(n) && n == bytes.len())
            &&& read matches Ok(b) && b.total_size == bytes.len() && b.window == window
            &&& window is None ==> (read->Ok_0).body@ == bytes
            &&& window matches Some(w) ==> (w.start <= w.end && w.end < bytes.len() ==> (
            read->Ok_0).body@ == bytes.subrange(w.start as int, w.end + 1))
        },
{
}

/// A whole blob is stored where it hashes to the digest it was pushed under and keeps
/// to its limits; otherwise it is refused and nothing changes. Storing it adds that
/// one blob to that one repository.
pub proof fn a_pushed_blob_is_stored_if_it_is_what_it_claims(
    h: Holdings,
    name: Seq<char>,
    digest: Digest,
    body: UploadBody<Vec<u8>>,
    r: OpsResult<()>,
    after: Holdings,
    other: Digest,
)
    requires
        is_step(h, Event::PutBlob(name, digest, body, r), after),
        body.declared is None,
        body.limit matches Some(limit) ==> body.body@.len() <= limit,
        body.body@.len() <= u64::MAX,
    ensures
        r is Ok <==> verifies(digest, body.body@),
        r is Err ==> r == Err::<(), OpsError>(OpsError::DigestMismatch) && after == h,
        r is Ok ==> {
            &&& only_repo(h, after, name)
            &&& after.repos.contains_key(name)
            &&& after.repos[name].blobs.contains_key(digest)
            &&& after.repos[name].blobs[digest] == body.body@
            &&& h.repos.contains_key(name) ==> after.repos[name].manifests
                == h.repos[name].manifests && after.repos[name].tags == h.repos[name].tags
            &&& other != digest ==> after.repos[name].blobs.contains_key(other) == (
            h.repos.contains_key(name) && h.repos[name].blobs.contains_key(other))
            &&& other != digest && h.repos.contains_key(name) && h.repos[name].blobs.contains_key(
                other,
            ) ==> after.repos[name].blobs[other] == h.repos[name].blobs[other]
        },
{
}

/// A blob that is deleted from a repository is gone from it, and from nowhere else;
/// nothing else of the repository changes. One that is not there is unknown.
pub proof fn a_deleted_blob_leaves_one_repository(
    h: Holdings,
    name: Seq<char>,
    digest: Digest,
    r: OpsResult<()>,
    after: Holdings,
    other: Digest,
)
    requires
        is_step(h, Event::DeleteBlob(name, digest, r), after),
    ensures
        r is Ok <==> h.repos.contains_key(name) && h.repos[name].blobs.contains_key(digest),
        r is Err ==> r == Err::<(), OpsError>(OpsError::BlobUnknown) && after == h,
        r is Ok ==> {
            &&& only_repo(h, after, name)
            &&& after.repos.contains_key(name)
            &&& after.repos[name].manifests == h.repos[name].manifests
            &&& after.repos[name].tags == h.repos[name].tags
            &&& after.repos[name].blobs.contains_key(other) == (h.repos[name].blobs.contains_key(
                other,
            ) && other != digest)
            &&& after.repos[name].blobs.contains_key(other) ==> after.repos[name].blobs[other]
                == h.repos[name].blobs[other]
        },
{
}

/// A mount gives the target the source's bytes and takes nothing from the source. A
/// named source must itself serve the blob; without one, any repository will do, and
/// only where none serves it is the mount refused. A refused mount changes nothing
/// and is no error.
pub proof fn a_mount_shares_what_a_source_serves(
    h: Holdings,
    name: Seq<char>,
    digest: Digest,
    from: Option<Seq<char>>,
    r: OpsResult<bool>,
    after: Holdings,
    other: Digest,
)
    requires
        is_step(h, Event::MountBlob(name, digest, from, r), after),
    ensures
        r is Ok,
        from matches Some(source) ==> (r->Ok_0 <==> h.repos.contains_key(source)
            && h.repos[source].blobs.contains_key(digest)),
        from is None ==> (r->Ok_0 <==> exists|source: Seq<char>|
            h.repos.contains_key(source) && (#[trigger] h.repos[source]).blobs.contains_key(digest)),
        !r->Ok_0 ==> after == h,
        r->Ok_0 ==> {
            &&& only_repo(h, after, name)
            &&& after.repos.contains_key(name)
            &&& after.repos[name].blobs.contains_key(digest)
            &&& from matches Some(source) ==> after.repos[name].blobs[digest]
                == h.repos[source].blobs[digest]
            &&& exists|source: Seq<char>|
                h.repos.contains_key(source) && (#[trigger] h.repos[source]).blobs.contains_key(
                    digest,
                ) && after.repos[name].blobs[digest] == h.repos[source].blobs[digest]
            &&& h.repos.contains_key(name) ==> after.repos[name].manifests
                == h.repos[name].manifests && after.repos[name].tags == h.repos[name].tags
            &&& other != digest && h.repos.contains_key(name) && h.repos[name].blobs.contains_key(
                other,
            ) ==> after.repos[name].blobs.contains_key(other) && after.repos[name].blobs[other]
                == h.repos[name].blobs[other]
        },
{
    if from is None {
        if exists|source: Seq<char>|
            h.repos.contains_key(source) && (#[trigger] h.repos[source]).blobs.contains_key(
                digest,
            ) {
            let source = choose|source: Seq<char>|
                h.repos.contains_key(source) && (#[trigger] h.repos[source]).blobs.contains_key(
                    digest,
                );
            assert(h.serves(source, digest));
        }
        if r->Ok_0 {
            let source = choose|source: Seq<char>| #[trigger]
                h.is_first_holder(source, digest) && after == h.with_repo(
                    name,
                    h.repo_or_new(name).with_blob(digest, h.repos[source].blobs[digest]),
                );
            assert(h.repos[source].blobs.contains_key(digest));
        }
    } else if r->Ok_0 {
        let source = from->0;
        assert(h.repos[source].blobs.contains_key(digest));
    }
}

// --- uploads ----------------------------------------------------------------------

/// Everything but one upload is as it was.
pub open spec fn only_upload(h: Holdings, after: Holdings, id: Seq<char>) -> bool {
    forall|other: Seq<char>|
        other != id ==> #[trigger] after.uploads.contains_key(other) == h.uploads.contains_key(
            other,
        ) && (h.uploads.contains_key(other) ==> after.uploads[other] == h.uploads[other])
}

/// A new upload is the repository's, under the algorithm that was asked for, and has
/// taken in nothing. It brings its repository into being and changes nothing else.
pub proof fn a_new_upload_is_empty(
    h: Holdings,
    name: Seq<char>,
    id: Seq<char>,
    algorithm: Seq<char>,
    r: OpsResult<()>,
    after: Holdings,
    other: Seq<char>,
)
    requires
        is_step(h, Event::CreateUpload(name, id, algorithm, r), after),
    ensures
        r is Ok,
        only_upload(h, after, id),
        after.uploads.contains_key(id),
        after.uploads[id] == (SessionModel { repo: name, algorithm, buffer: Seq::empty() }),
        after.repos.contains_key(name),
        h.repos.contains_key(name) ==> after.repos[name] == h.repos[name],
        other != name ==> after.repos.contains_key(other) == h.repos.contains_key(other) && (
        h.repos.contains_key(other) ==> after.repos[other] == h.repos[other]),
{
}

/// An upload's offset is the number of bytes it has taken in, told to its own
/// repository alone; asking changes nothing.
pub proof fn an_upload_stands_where_its_bytes_end(
    h: Holdings,
    name: Seq<char>,
    id: Seq<char>,
    r: OpsResult<u64>,
    after: Holdings,
)
    requires
        is_step(h, Event::UploadOffset(name, id, r), after),
    ensures
        after == h,
        h.uploads.contains_key(id) && h.uploads[id].repo == name && h.uploads[id].buffer.len()
            <= u64::MAX ==> (r matches Ok(n) && n == h.uploads[id].buffer.len()),
        !(h.uploads.contains_key(id) && h.uploads[id].repo == name) ==> r == Err::<u64, OpsError>(
            OpsError::UploadUnknown,
        ),
{
}

/// A chunk that begins where the upload stands and keeps to its limits is taken in
/// behind what is there, and the new offset is told; one that begins elsewhere is
/// refused with the place where the upload stands, and nothing changes.
pub proof fn a_chunk_is_taken_in_where_the_upload_stands(
    h: Holdings,
    name: Seq<char>,
    id: Seq<char>,
    offset: u64,
    body: UploadBody<Vec<u8>>,
    r: OpsResult<u64>,
    after: Holdings,
)
    requires
        is_step(h, Event::AppendUpload(name, id, offset, body, r), after),
        h.uploads.contains_key(id),
        h.uploads[id].buffer.len() + body.body@.len() <= u64::MAX,
        body.declared matches Some(n) ==> n == body.body@.len(),
        body.limit matches Some(n) ==> body.body@.len() <= n,
    ensures
        h.uploads[id].repo != name ==> r == Err::<u64, OpsError>(OpsError::UploadUnknown) && after
            == h,
        h.uploads[id].repo == name && h.uploads[id].buffer.len() != offset ==> (r matches Err(
            OpsError::OffsetMismatch { current },
        ) && current == h.uploads[id].buffer.len()) && after == h,
        h.uploads[id].repo == name && h.uploads[id].buffer.len() == offset ==> {
            &&& r matches Ok(n) && n == offset + body.body@.len()
            &&& after.repos == h.repos
            &&& only_upload(h, after, id)
            &&& after.uploads.contains_key(id)
            &&& after.uploads[id].buffer == h.uploads[id].buffer + body.body@
            &&& after.uploads[id].repo == name
            &&& after.uploads[id].algorithm == h.uploads[id].algorithm
        },
{
}

/// A body that is longer than its limit, or not as long as was declared, is refused,
/// and nothing changes.
pub proof fn a_chunk_outside_its_limits_is_refused(
    h: Holdings,
    name: Seq<char>,
    id: Seq<char>,
    offset: u64,
    body: UploadBody<Vec<u8>>,
    r: OpsResult<u64>,
    after: Holdings,
)
    requires
        is_step(h, Event::AppendUpload(name, id, offset, body, r), after),
        body.body@.len() <= u64::MAX,
        (body.limit matches Some(n) && body.body@.len() > n) || (body.declared matches Some(n) && n
            != body.body@.len()),
    ensures
        after == h,
        r matches Err(e) && (e is BodyTooLarge || e is SizeMismatch),
        body.limit matches Some(n) ==> (body.body@.len() > n ==> r == Err::<u64, OpsError>(
            OpsError::BodyTooLarge { limit: n },
        )),
        (body.limit matches Some(n) ==> body.body@.len() <= n && body.declared->0 <= n) ==> (
        r matches Err(OpsError::SizeMismatch { declared, actual }) && declared == body.declared->0
            && actual == body.body@.len()),
{
}

/// An upload is closed under a digest of its own algorithm that all its bytes hash
/// to, the last chunk among them: the blob is then held by the repository and the
/// upload is gone. Under any other digest it is refused, and nothing changes, so that
/// the client can try again.
pub proof fn an_upload_is_closed_under_the_digest_of_all_its_bytes(
    h: Holdings,
    name: Seq<char>,
    id: Seq<char>,
    offset: u64,
    body: UploadBody<Vec<u8>>,
    digest: Digest,
    r: OpsResult<()>,
    after: Holdings,
    other: Digest,
)
    requires
        is_step(h, Event::FinishUpload(name, id, offset, body, digest, r), after),
        h.uploads.contains_key(id),
        h.uploads[id].repo == name,
        h.uploads[id].buffer.len() == offset,
        body.body@.len() <= u64::MAX,
        body.declared matches Some(n) ==> n == body.body@.len(),
        body.limit matches Some(n) ==> body.body@.len() <= n,
    ensures
        r is Ok <==> verifies(digest, h.uploads[id].buffer + body.body@) && h.uploads[id].algorithm
            == digest.algorithm_name(),
        r is Err ==> r == Err::<(), OpsError>(OpsError::DigestMismatch) && after == h,
        r is Ok ==> {
            &&& !after.uploads.contains_key(id)
            &&& only_upload(h, after, id)
            &&& after.repos.contains_key(name)
            &&& after.repos[name].blobs.contains_key(digest)
            &&& after.repos[name].blobs[digest] == h.uploads[id].buffer + body.body@
            &&& forall|n: Seq<char>|
                n != name ==> #[trigger] after.repos.contains_key(n) == h.repos.contains_key(n) && (
                h.repos.contains_key(n) ==> after.repos[n] == h.repos[n])
            &&& h.repos.contains_key(name) ==> after.repos[name].manifests
                == h.repos[name].manifests && after.repos[name].tags == h.repos[name].tags
            &&& other != digest && h.repos.contains_key(name) && h.repos[name].blobs.contains_key(
                other,
            ) ==> after.repos[name].blobs.contains_key(other) && after.repos[name].blobs[other]
                == h.repos[name].blobs[other]
        },
{
}

/// Closing at another place than where the upload stands is refused with the place,
/// and nothing changes.
pub proof fn an_upload_is_not_closed_out_of_place(
    h: Holdings,
    name: Seq<char>,
    id: Seq<char>,
    offset: u64,
    body: UploadBody<Vec<u8>>,
    digest: Digest,
    r: OpsResult<()>,
    after: Holdings,
)
    requires
        is_step(h, Event::FinishUpload(name, id, offset, body, digest, r), after),
        h.uploads.contains_key(id),
        h.uploads[id].repo == name,
        h.uploads[id].buffer.len() <= u64::MAX,
        h.uploads[id].buffer.len() != offset,
        body.body@.len() <= u64::MAX,
        body.declared matches Some(n) ==> n == body.body@.len(),
        body.limit matches Some(n) ==> body.body@.len() <= n,
    ensures
        after == h,
        r matches Err(OpsError::OffsetMismatch { current }) && current
            == h.uploads[id].buffer.len(),
{
}

/// An upload that is given up is gone, and nothing else is; only its own repository
/// can give it up.
pub proof fn an_upload_that_is_given_up_is_gone(
    h: Holdings,
    name: Seq<char>,
    id: Seq<char>,
    r: OpsResult<()>,
    after: Holdings,
)
    requires
        is_step(h, Event::CancelUpload(name, id, r), after),
    ensures
        r is Ok <==> h.uploads.contains_key(id) && h.uploads[id].repo == name,
        r is Err ==> r == Err::<(), OpsError>(OpsError::UploadUnknown) && after == h,
        r is Ok ==> after.repos == h.repos && !after.uploads.contains_key(id) && only_upload(
            h,
            after,
            id,
        ),
{
}

// --- listings ---------------------------------------------------------------------

/// What follows a cursor in a list is in the list, follows the cursor, and keeps the
/// list's order; and all that follows is there.
proof fn lemma_rest(all: Seq<Seq<char>>, last: Option<Seq<char>>)
    requires
        ascending::<String>(all),
    ensures
        ({
            let rest = rest_after(all, last);
            &&& ascending::<String>(rest)
            &&& forall|i: int|
                0 <= i < rest.len() ==> all.contains(#[trigger] rest[i]) && is_after(last, rest[i])
            &&& forall|s: Seq<char>|
                all.contains(s) && is_after(last, s) ==> #[trigger] rest.contains(s)
        }),
    decreases all.len(),
{
    reveal(Seq::filter);
    let rest = rest_after(all, last);
    if all.len() > 0 {
        let head = all.drop_last();
        let part = rest_after(head, last);
        assert forall|i: int, j: int| 0 <= i < j < head.len() implies lex_lt(
            #[trigger] <String as Key>::order(head[i]),
            #[trigger] <String as Key>::order(head[j]),
        ) by {
            assert(lex_lt(<String as Key>::order(all[i]), <String as Key>::order(all[j])));
        }
        lemma_rest(head, last);
        let x = all.last();
        assert(all[all.len() - 1] == x);
        assert forall|i: int| 0 <= i < part.len() implies all.contains(#[trigger] part[i]) && lex_lt(
            <String as Key>::order(part[i]),
            <String as Key>::order(x),
        ) by {
            assert(head.contains(part[i]));
            let k = choose|k: int| 0 <= k < head.len() && head[k] == part[i];
            assert(all[k] == part[i]);
            assert(lex_lt(
                <String as Key>::order(all[k]),
                <String as Key>::order(all[all.len() - 1]),
            ));
        }
        assert forall|s: Seq<char>| all.contains(s) && is_after(last, s) implies
        #[trigger] rest.contains(s) by {
            let k = choose|k: int| 0 <= k < all.len() && all[k] == s;
            if k < head.len() {
                assert(head[k] == s);
                assert(part.contains(s));
                let y = choose|y: int| 0 <= y < part.len() && part[y] == s;
                assert(rest[y] == s);
            } else {
                assert(rest[part.len() as int] == s);
            }
        }
        if is_after(last, x) {
            assert(rest == part.push(x));
            assert forall|i: int, j: int| 0 <= i < j < rest.len() implies lex_lt(
                #[trigger] <String as Key>::order(rest[i]),
                #[trigger] <String as Key>::order(rest[j]),
            ) by {
                assert(rest[i] == part[i]);
                if j < part.len() {
                    assert(rest[j] == part[j]);
                    assert(lex_lt(
                        <String as Key>::order(part[i]),
                        <String as Key>::order(part[j]),
                    ));
                }
            }
            assert forall|i: int| 0 <= i < rest.len() implies all.contains(#[trigger] rest[i])
                && is_after(last, rest[i]) by {
                if i < part.len() {
                    assert(rest[i] == part[i]);
                }
            }
        } else {
            assert(rest == part);
        }
    }
}

/// A page of names holds names that are there, behind the cursor, in byte order and
/// no more than were asked for. It leaves none out: a name behind the cursor that the
/// page does not hold sorts behind everything on it. And it says that there is more
/// exactly if it left something for the next page.
pub proof fn a_page_leaves_no_name_out<V>(
    page: Page<String>,
    map: Map<Seq<char>, V>,
    last: Option<Seq<char>>,
    limit: nat,
    i: int,
    j: int,
    name: Seq<char>,
)
    requires
        pages_keys(page, map, last, limit),
        0 <= i < page.items@.len(),
        0 <= j < page.items@.len(),
    ensures
        page.items@.len() <= limit,
        map.contains_key(page.items@[i]@),
        last matches Some(l) ==> lex_lt(encode_utf8(l), encode_utf8(page.items@[i]@)),
        i < j ==> lex_lt(encode_utf8(page.items@[i]@), encode_utf8(page.items@[j]@)),
        map.contains_key(name) && (last matches Some(l) ==> lex_lt(
            encode_utf8(l),
            encode_utf8(name),
        )) ==> {
            ||| exists|k: int| 0 <= k < page.items@.len() && (#[trigger] page.items@[k])@ == name
            ||| page.more && lex_lt(encode_utf8(page.items@[i]@), encode_utf8(name))
        },
{
    let all = choose|all: Seq<Seq<char>>| #[trigger]
        ascending::<String>(all) && lists(all, map) && is_page(page, all, last, limit);
    lemma_rest(all, last);
    let rest = rest_after(all, last);
    let items = page.items.deep_view();
    assert(items.len() == page.items@.len());
    assert(forall|k: int| 0 <= k < items.len() ==> items[k] == page.items@[k]@);
    assert(forall|k: int| 0 <= k < items.len() ==> items[k] == rest[k]);
    assert(all.contains(rest[i]));
    if i < j {
        assert(lex_lt(<String as Key>::order(rest[i]), <String as Key>::order(rest[j])));
    }
    if map.contains_key(name) && is_after(last, name) {
        assert(all.contains(name));
        assert(rest.contains(name));
        let k = choose|k: int| 0 <= k < rest.len() && rest[k] == name;
        if k < items.len() {
            assert(page.items@[k]@ == name);
        } else {
            assert(lex_lt(<String as Key>::order(rest[i]), <String as Key>::order(rest[k])));
        }
    }
}

/// A page says that there is more exactly if some name behind the cursor is not on
/// it; a page of a list that has such names, and that may hold any, holds one.
pub proof fn a_page_says_truly_if_there_is_more<V>(
    page: Page<String>,
    map: Map<Seq<char>, V>,
    last: Option<Seq<char>>,
    limit: nat,
)
    requires
        pages_keys(page, map, last, limit),
    ensures
        page.more <==> exists|name: Seq<char>|
            map.contains_key(name) && (last matches Some(l) ==> lex_lt(
                encode_utf8(l),
                encode_utf8(name),
            )) && !(#[trigger] page.items.deep_view().contains(name)),
        page.more ==> page.items@.len() == limit,
{
    let all = choose|all: Seq<Seq<char>>| #[trigger]
        ascending::<String>(all) && lists(all, map) && is_page(page, all, last, limit);
    lemma_rest(all, last);
    let rest = rest_after(all, last);
    let items = page.items.deep_view();
    assert(items.len() == page.items@.len());
    if page.more {
        let name = rest[limit as int];
        assert(all.contains(name));
        if items.contains(name) {
            let k = choose|k: int| 0 <= k < items.len() && items[k] == name;
            assert(lex_lt(
                <String as Key>::order(rest[k]),
                <String as Key>::order(rest[limit as int]),
            ));
            lex_irreflexive(encode_utf8(name));
        }
        assert(!items.contains(name));
    } else {
        assert forall|name: Seq<char>| map.contains_key(name) && is_after(last, name) implies
        #[trigger] items.contains(name) by {
            assert(all.contains(name));
            assert(rest.contains(name));
        }
    }
}

/// The lists that are paged are the repositories, and the tags of a repository that is
/// there; a repository that is not is unknown.
pub proof fn listings_list_what_is_there(
    h: Holdings,
    name: Seq<char>,
    last: Option<Seq<char>>,
    limit: usize,
    repos: OpsResult<Page<String>>,
    tags: OpsResult<Page<String>>,
    one: Holdings,
    two: Holdings,
)
    requires
        is_step(h, Event::Repositories(last, limit, repos), one),
        is_step(h, Event::Tags(name, last, limit, tags), two),
    ensures
        one == h,
        two == h,
        repos matches Ok(page) && pages_keys(page, h.repos, last, limit as nat),
        h.repos.contains_key(name) ==> (tags matches Ok(page) && pages_keys(
            page,
            h.repos[name].tags,
            last,
            limit as nat,
        )),
        !h.repos.contains_key(name) ==> tags == Err::<Page<String>, OpsError>(
            OpsError::RepoUnknown,
        ),
{
}

// --- referrers --------------------------------------------------------------------

/// What is picked out of a list that ascends still ascends, is in the list and passes
/// the test; and all that passes is picked.
proof fn lemma_picked(all: Seq<Digest>, wanted: spec_fn(Digest) -> bool)
    requires
        ascending::<Digest>(all),
    ensures
        ({
            let some = all.filter(wanted);
            &&& ascending::<Digest>(some)
            &&& forall|i: int|
                0 <= i < some.len() ==> all.contains(#[trigger] some[i]) && wanted(some[i])
            &&& forall|d: Digest| all.contains(d) && wanted(d) ==> #[trigger] some.contains(d)
        }),
    decreases all.len(),
{
    reveal(Seq::filter);
    let some = all.filter(wanted);
    if all.len() > 0 {
        let head = all.drop_last();
        let part = head.filter(wanted);
        assert forall|i: int, j: int| 0 <= i < j < head.len() implies lex_lt(
            #[trigger] <Digest as Key>::order(head[i]),
            #[trigger] <Digest as Key>::order(head[j]),
        ) by {
            assert(lex_lt(<Digest as Key>::order(all[i]), <Digest as Key>::order(all[j])));
        }
        lemma_picked(head, wanted);
        let x = all.last();
        assert(all[all.len() - 1] == x);
        assert forall|i: int| 0 <= i < part.len() implies all.contains(#[trigger] part[i]) && lex_lt(
            <Digest as Key>::order(part[i]),
            <Digest as Key>::order(x),
        ) by {
            assert(head.contains(part[i]));
            let k = choose|k: int| 0 <= k < head.len() && head[k] == part[i];
            assert(all[k] == part[i]);
            assert(lex_lt(
                <Digest as Key>::order(all[k]),
                <Digest as Key>::order(all[all.len() - 1]),
            ));
        }
        assert forall|d: Digest| all.contains(d) && wanted(d) implies #[trigger] some.contains(d) by {
            let k = choose|k: int| 0 <= k < all.len() && all[k] == d;
            if k < head.len() {
                assert(head[k] == d);
                assert(part.contains(d));
                let y = choose|y: int| 0 <= y < part.len() && part[y] == d;
                assert(some[y] == d);
            } else {
                assert(some[part.len() as int] == d);
            }
        }
        if wanted(x) {
            assert(some == part.push(x));
            assert forall|i: int, j: int| 0 <= i < j < some.len() implies lex_lt(
                #[trigger] <Digest as Key>::order(some[i]),
                #[trigger] <Digest as Key>::order(some[j]),
            ) by {
                assert(some[i] == part[i]);
                if j < part.len() {
                    assert(some[j] == part[j]);
                    assert(lex_lt(
                        <Digest as Key>::order(part[i]),
                        <Digest as Key>::order(part[j]),
                    ));
                }
            }
            assert forall|i: int| 0 <= i < some.len() implies all.contains(#[trigger] some[i])
                && wanted(some[i]) by {
                if i < part.len() {
                    assert(some[i] == part[i]);
                }
            }
        } else {
            assert(some == part);
        }
    }
}

/// A referrers listing holds manifests of the repository that name the subject, of the
/// wanted type and behind the cursor, in digest order, each as it was pushed, and no
/// more than may be scanned. It leaves none out: one that it does not hold stands
/// behind the place where the next page begins. A repository or a subject that
/// nobody knows has none, and that is no error.
pub proof fn a_referrers_listing_leaves_none_out(
    h: Holdings,
    name: Seq<char>,
    subject: Digest,
    artifact_type: Option<Seq<char>>,
    last: Option<Digest>,
    limit: usize,
    r: OpsResult<Referrers>,
    after: Holdings,
    i: int,
    j: int,
    d: Digest,
)
    requires
        is_step(h, Event::Referrers(name, subject, artifact_type, last, limit, r), after),
    ensures
        after == h,
        r is Ok,
        (r->Ok_0).filter_applied == (artifact_type is Some),
        (r->Ok_0).manifests@.len() <= limit,
        !h.repos.contains_key(name) ==> (r->Ok_0).manifests@.len() == 0 && (r->Ok_0).next is None,
        0 <= i < (r->Ok_0).manifests@.len() ==> {
            let row = (r->Ok_0).manifests@[i];
            &&& h.repos.contains_key(name)
            &&& h.repos[name].manifests.contains_key(row.digest)
            &&& {
                let m = h.repos[name].manifests[row.digest];
                &&& m.described.subject == Some(subject)
                &&& artifact_type matches Some(t) ==> m.described.artifact_type == Some(t)
                &&& row.media_type@ == m.media_type
                &&& row.size == m.body.len()
                &&& row.artifact_type.deep_view() == m.described.artifact_type
            }
            &&& last matches Some(l) ==> lex_lt(l.encoded(), row.digest.encoded())
            &&& i < j < (r->Ok_0).manifests@.len() ==> lex_lt(
                row.digest.encoded(),
                (r->Ok_0).manifests@[j].digest.encoded(),
            )
        },
        h.repos.contains_key(name) && h.repos[name].manifests.contains_key(d)
            && h.repos[name].manifests[d].described.subject == Some(subject) && (
        artifact_type matches Some(t) ==> h.repos[name].manifests[d].described.artifact_type
            == Some(t)) && (last matches Some(l) ==> lex_lt(l.encoded(), d.encoded())) && limit > 0
            ==> {
            ||| exists|k: int|
                0 <= k < (r->Ok_0).manifests@.len() && (#[trigger] (
                r->Ok_0).manifests@[k]).digest == d
            ||| (r->Ok_0).next matches Some(n) && lex_lt(n.encoded(), d.encoded())
        },
        (r->Ok_0).next matches Some(n) ==> (last matches Some(l) ==> lex_lt(
            l.encoded(),
            n.encoded(),
        )),
{
    let found = r->Ok_0;
    let manifests = h.repo_or_new(name).manifests;
    let keys = choose|keys: Seq<Digest>|
        {
            let all = edges(keys, manifests, subject, last);
            let scanned = at_most(all, limit as nat);
            let shown = of_type(scanned, manifests, artifact_type);
            &&& #[trigger] ascending::<Digest>(keys)
            &&& lists(keys, manifests)
            &&& found.manifests@.len() == shown.len()
            &&& forall|i: int|
                0 <= i < shown.len() ==> crate::server::memory::describes(
                    #[trigger] found.manifests@[i],
                    shown[i],
                    manifests[shown[i]],
                )
            &&& found.filter_applied == (artifact_type is Some)
            &&& found.next == if 0 < limit < all.len() {
                Some(scanned.last())
            } else {
                None
            }
        };
    let refers = |d: Digest|
        manifests[d].described.subject == Some(subject) && (last matches Some(l) ==> lex_lt(
            l.encoded(),
            d.encoded(),
        ));
    let typed = |d: Digest|
        artifact_type matches Some(t) ==> manifests[d].described.artifact_type == Some(t);
    let all = edges(keys, manifests, subject, last);
    let scanned = at_most(all, limit as nat);
    let shown = of_type(scanned, manifests, artifact_type);
    assert(all == keys.filter(refers));
    lemma_picked(keys, refers);
    assert forall|x: int, y: int| 0 <= x < y < scanned.len() implies lex_lt(
        #[trigger] <Digest as Key>::order(scanned[x]),
        #[trigger] <Digest as Key>::order(scanned[y]),
    ) by {
        assert(lex_lt(<Digest as Key>::order(all[x]), <Digest as Key>::order(all[y])));
    }
    assert(shown == scanned.filter(typed));
    lemma_picked(scanned, typed);
    scanned.lemma_filter_len(typed);
    assert(forall|x: int| 0 <= x < scanned.len() ==> scanned[x] == all[x]);
    if 0 <= i < found.manifests@.len() {
        assert(scanned.contains(shown[i]));
        let x = choose|x: int| 0 <= x < scanned.len() && scanned[x] == shown[i];
        assert(keys.contains(all[x]));
        assert(manifests.contains_key(shown[i]));
        assert(crate::server::memory::describes(
            found.manifests@[i],
            shown[i],
            manifests[shown[i]],
        ));
        if i < j < found.manifests@.len() {
            assert(crate::server::memory::describes(
                found.manifests@[j],
                shown[j],
                manifests[shown[j]],
            ));
            assert(lex_lt(<Digest as Key>::order(shown[i]), <Digest as Key>::order(shown[j])));
        }
    }
    if !h.repos.contains_key(name) {
        if all.len() > 0 {
            assert(keys.contains(all[0]));
            let x = choose|x: int| 0 <= x < keys.len() && keys[x] == all[0];
            assert(manifests.contains_key(keys[x]));
        }
        if shown.len() > 0 {
            assert(scanned.contains(shown[0]));
        }
    }
    if found.next is Some {
        assert(scanned.last() == all[limit - 1]);
        assert(keys.contains(all[limit - 1]));
    }
    if h.repos.contains_key(name) && manifests.contains_key(d) && refers(d) && typed(d) && limit > 0 {
        assert(keys.contains(d));
        assert(all.contains(d));
        let x = choose|x: int| 0 <= x < all.len() && all[x] == d;
        if x < scanned.len() {
            assert(scanned[x] == d);
            assert(scanned.contains(d));
            assert(shown.contains(d));
            let k = choose|k: int| 0 <= k < shown.len() && shown[k] == d;
            assert(crate::server::memory::describes(
                found.manifests@[k],
                shown[k],
                manifests[shown[k]],
            ));
            assert(found.manifests@[k].digest == d);
        } else {
            assert(lex_lt(<Digest as Key>::order(all[limit - 1]), <Digest as Key>::order(all[x])));
        }
    }
}

} // verus!
