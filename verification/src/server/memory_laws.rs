//! What the holdings of a registry keep, whatever is done to them.
use vstd::prelude::*;
use vstd::utf8::*;

use crate::bytes::{lex_asymmetric, lex_irreflexive, lex_lt};
use crate::digest::Digest;
use crate::server::manifest_json::description_of;
use crate::server::memory::{
    algorithm_of, append_objection, completes, edges, is_after, pushed, rest_after, verifies,
    Holdings, ManifestModel, RepoModel, SessionModel,
};
use crate::server::reference::Referred;
use crate::server::seam::UploadBody;
use crate::table::{ascending, lists, Key};

verus! {

/// A blob that is put into one repository is served there, and is served from
/// another exactly if it was before.
pub proof fn blobs_belong_to_their_repository(
    h: Holdings,
    name: Seq<char>,
    digest: Digest,
    bytes: Seq<u8>,
    other: Seq<char>,
)
    requires
        other != name,
    ensures
        ({
            let after = h.with_repo(name, h.repo_or_new(name).with_blob(digest, bytes));
            &&& after.serves(name, digest)
            &&& after.repos[name].blobs[digest] == bytes
            &&& after.serves(other, digest) == h.serves(other, digest)
            &&& after.serves(other, digest) ==> after.repos[other] == h.repos[other]
        }),
{
}

/// Taking a blob out of one repository leaves every other one as it was.
pub proof fn deleting_a_blob_is_local(
    h: Holdings,
    name: Seq<char>,
    digest: Digest,
    other: Seq<char>,
)
    requires
        h.serves(name, digest),
        other != name,
    ensures
        ({
            let repo = h.repos[name];
            let after = h.with_repo(
                name,
                RepoModel { blobs: repo.blobs.remove(digest), ..repo },
            );
            &&& !after.serves(name, digest)
            &&& after.serves(other, digest) == h.serves(other, digest)
        }),
{
}

proof fn lemma_tagged(repo: RepoModel, tags: Seq<Seq<char>>, digest: Digest, tag: Seq<char>)
    ensures
        ({
            let after = repo.with_tags(tags, digest);
            &&& after.manifests == repo.manifests
            &&& after.blobs == repo.blobs
            &&& tags.contains(tag) ==> after.tags.contains_key(tag) && after.tags[tag] == digest
            &&& !tags.contains(tag) ==> after.tags.contains_key(tag) == repo.tags.contains_key(tag)
            &&& !tags.contains(tag) && repo.tags.contains_key(tag) ==> after.tags[tag]
                == repo.tags[tag]
        }),
    decreases tags.len(),
{
    if tags.len() > 0 {
        lemma_tagged(repo, tags.drop_last(), digest, tag);
        if tags.contains(tag) && tag != tags.last() {
            let i = choose|i: int| 0 <= i < tags.len() && tags[i] == tag;
            assert(tags.drop_last()[i] == tag);
        }
        if tags.drop_last().contains(tag) {
            let i = choose|i: int| 0 <= i < tags.drop_last().len() && tags.drop_last()[i] == tag;
            assert(tags[i] == tag);
        }
    }
}

/// A pushed manifest reads back byte for byte, with the type it was pushed as,
/// under its digest, under the tag it was pushed to and under every further tag of
/// the push.
pub proof fn a_push_reads_back(
    h: Holdings,
    name: Seq<char>,
    reference: Referred,
    content_type: Seq<char>,
    tags: Seq<Seq<char>>,
    body: Seq<u8>,
    digest: Digest,
    tag: Seq<char>,
)
    requires
        reference == Referred::Tag(tag) || tags.contains(tag),
    ensures
        ({
            let after = pushed(h, name, reference, content_type, tags, body, digest);
            let m = ManifestModel { media_type: content_type, body, described: description_of(body) };
            &&& after.repos.contains_key(name)
            &&& after.repos[name].lookup(Referred::Digest(digest)) == Some((digest, m))
            &&& after.repos[name].lookup(Referred::Tag(tag)) == Some((digest, m))
        }),
{
    let m = ManifestModel { media_type: content_type, body, described: description_of(body) };
    let held = h.repo_or_new(name).with_manifest(digest, m);
    let tagged = match reference {
        Referred::Tag(t) => held.with_tag(t, digest),
        Referred::Digest(_) => held,
    };
    lemma_tagged(tagged, tags, digest, tag);
}

/// A push changes no manifest but its own, and no tag but its own.
pub proof fn a_push_keeps_the_rest(
    h: Holdings,
    name: Seq<char>,
    reference: Referred,
    content_type: Seq<char>,
    tags: Seq<Seq<char>>,
    body: Seq<u8>,
    digest: Digest,
    other: Digest,
    tag: Seq<char>,
)
    requires
        h.repos.contains_key(name),
        other != digest,
        reference != Referred::Tag(tag),
        !tags.contains(tag),
    ensures
        ({
            let was = h.repos[name];
            let after = pushed(h, name, reference, content_type, tags, body, digest).repos[name];
            &&& after.manifests.contains_key(other) == was.manifests.contains_key(other)
            &&& was.manifests.contains_key(other) ==> after.manifests[other] == was.manifests[other]
            &&& after.tags.contains_key(tag) == was.tags.contains_key(tag)
            &&& was.tags.contains_key(tag) ==> after.tags[tag] == was.tags[tag]
            &&& after.blobs == was.blobs
        }),
{
    let m = ManifestModel { media_type: content_type, body, described: description_of(body) };
    let held = h.repo_or_new(name).with_manifest(digest, m);
    let tagged = match reference {
        Referred::Tag(t) => held.with_tag(t, digest),
        Referred::Digest(_) => held,
    };
    lemma_tagged(tagged, tags, digest, tag);
}

/// Deleting a manifest by digest takes it and every tag that points at it, at
/// once; every other manifest and every other tag stays.
pub proof fn deleting_by_digest_cascades(repo: RepoModel, digest: Digest, tag: Seq<char>, other: Digest)
    requires
        other != digest,
    ensures
        ({
            let after = repo.without_manifest(digest);
            &&& after.lookup(Referred::Digest(digest)) is None
            &&& after.tags.contains_key(tag) == (repo.tags.contains_key(tag) && repo.tags[tag]
                != digest)
            &&& after.tags.contains_key(tag) ==> after.tags[tag] == repo.tags[tag]
            &&& after.lookup(Referred::Digest(other)) == repo.lookup(Referred::Digest(other))
            &&& after.blobs == repo.blobs
        }),
{
}

/// Deleting a tag leaves the manifest it pointed at reachable by digest, and every
/// other tag where it was.
pub proof fn deleting_by_tag_keeps_the_manifest(
    repo: RepoModel,
    tag: Seq<char>,
    digest: Digest,
    other: Seq<char>,
)
    requires
        repo.lookup(Referred::Tag(tag)) is Some,
        (repo.lookup(Referred::Tag(tag))->0).0 == digest,
        other != tag,
    ensures
        ({
            let after = RepoModel { tags: repo.tags.remove(tag), ..repo };
            &&& after.lookup(Referred::Tag(tag)) is None
            &&& after.lookup(Referred::Digest(digest)) == repo.lookup(Referred::Tag(tag))
            &&& after.lookup(Referred::Tag(other)) == repo.lookup(Referred::Tag(other))
        }),
{
}

/// Two chunks appended one after the other are the same as both at once.
pub proof fn chunks_add_up(
    session: SessionModel,
    first: Seq<u8>,
    second: Seq<u8>,
    digest: Digest,
)
    ensures
        completes(
            SessionModel { buffer: session.buffer + first, ..session },
            second,
            digest,
        ) == completes(session, first + second, digest),
{
    assert(session.buffer + first + second =~= session.buffer + (first + second));
}

/// An append that is refused for its offset leaves the session where it was, so
/// the chunk that begins at the reported offset is still accepted.
pub proof fn a_refused_chunk_can_be_followed_by_the_right_one(
    h: Holdings,
    name: Seq<char>,
    id: Seq<char>,
    body: UploadBody<Vec<u8>>,
)
    requires
        h.has_upload(name, id),
        h.uploads[id].buffer.len() <= u64::MAX,
        crate::server::seam::body_objection(body.body@.len(), body.declared, body.limit) is None,
    ensures
        append_objection(h, name, id, h.uploads[id].buffer.len() as u64, body) is None,
{
}

proof fn lemma_filter_keeps(
    keys: Seq<Digest>,
    manifests: Map<Digest, ManifestModel>,
    subject: Digest,
    i: int,
)
    requires
        0 <= i < keys.len(),
        manifests[keys[i]].described.subject == Some(subject),
    ensures
        edges(keys, manifests, subject, None).contains(keys[i]),
    decreases keys.len(),
{
    reveal(Seq::filter);
    let was = edges(keys.drop_last(), manifests, subject, None);
    let now = edges(keys, manifests, subject, None);
    if i < keys.len() - 1 {
        assert(keys.drop_last()[i] == keys[i]);
        lemma_filter_keeps(keys.drop_last(), manifests, subject, i);
        let k = choose|k: int| 0 <= k < was.len() && was[k] == keys[i];
        assert(now[k] == keys[i]);
    } else {
        assert(now[was.len() as int] == keys[i]);
    }
}

/// A pushed manifest that names a subject is among the subject's referrers,
/// whether or not the subject itself was ever pushed.
pub proof fn a_referrer_is_listed_though_its_subject_is_missing(
    h: Holdings,
    name: Seq<char>,
    reference: Referred,
    content_type: Seq<char>,
    tags: Seq<Seq<char>>,
    body: Seq<u8>,
    digest: Digest,
    subject: Digest,
    keys: Seq<Digest>,
)
    requires
        description_of(body).subject == Some(subject),
        ascending::<Digest>(keys),
        lists(
            keys,
            pushed(h, name, reference, content_type, tags, body, digest).repos[name].manifests,
        ),
    ensures
        edges(
            keys,
            pushed(h, name, reference, content_type, tags, body, digest).repos[name].manifests,
            subject,
            None,
        ).contains(digest),
{
    let after = pushed(h, name, reference, content_type, tags, body, digest).repos[name];
    let m = ManifestModel { media_type: content_type, body, described: description_of(body) };
    let held = h.repo_or_new(name).with_manifest(digest, m);
    let tagged = match reference {
        Referred::Tag(t) => held.with_tag(t, digest),
        Referred::Digest(_) => held,
    };
    lemma_tagged(tagged, tags, digest, Seq::empty());
    assert(after.manifests == tagged.manifests);
    assert(after.manifests.contains_key(digest));
    let i = choose|i: int| 0 <= i < keys.len() && keys[i] == digest;
    lemma_filter_keeps(keys, after.manifests, subject, i);
}

/// Content that verifies under a digest verifies under no other of the same
/// algorithm.
pub proof fn content_has_one_digest(a: Digest, b: Digest, content: Seq<u8>)
    requires
        verifies(a, content),
        verifies(b, content),
        algorithm_of(a) == algorithm_of(b),
    ensures
        a == b,
{
    crate::storage::hasher::digests_of_content_agree(a, b, content);
}

// --- invariants ----------------------------------------------------------------

/// Everything a registry holds hashes to the digest it is held under.
pub open spec fn truthful(h: Holdings) -> bool {
    forall|name: Seq<char>| #[trigger] h.repos.contains_key(name) ==> repo_is_truthful(h.repos[name])
}

/// Everything a repository holds hashes to the digest it is held under.
pub open spec fn repo_is_truthful(repo: RepoModel) -> bool {
    &&& forall|d: Digest| #[trigger] repo.blobs.contains_key(d) ==> verifies(d, repo.blobs[d])
    &&& forall|d: Digest| #[trigger]
        repo.manifests.contains_key(d) ==> verifies(d, repo.manifests[d].body)
}

/// No tag points at a manifest that is not there.
pub open spec fn tags_resolve(h: Holdings) -> bool {
    forall|name: Seq<char>| #[trigger] h.repos.contains_key(name) ==> repo_tags_resolve(h.repos[name])
}

/// No tag of a repository points at a manifest that is not there.
pub open spec fn repo_tags_resolve(repo: RepoModel) -> bool {
    forall|t: Seq<char>| #[trigger]
        repo.tags.contains_key(t) ==> repo.manifests.contains_key(repo.tags[t])
}

/// An empty registry holds nothing untrue and has no loose tags.
pub proof fn a_new_registry_is_sound()
    ensures
        truthful(Holdings { repos: Map::empty(), uploads: Map::empty() }),
        tags_resolve(Holdings { repos: Map::empty(), uploads: Map::empty() }),
{
}

/// Storing a blob that was verified keeps both invariants, in whatever repository.
/// So a finished upload, a single push and a mount out of a truthful repository
/// keep them.
pub proof fn storing_a_verified_blob_keeps_the_registry_sound(
    h: Holdings,
    name: Seq<char>,
    digest: Digest,
    bytes: Seq<u8>,
)
    requires
        truthful(h),
        tags_resolve(h),
        verifies(digest, bytes),
    ensures
        truthful(h.with_repo(name, h.repo_or_new(name).with_blob(digest, bytes))),
        tags_resolve(h.with_repo(name, h.repo_or_new(name).with_blob(digest, bytes))),
{
    let repo = h.repo_or_new(name).with_blob(digest, bytes);
    assert(repo_is_truthful(repo) && repo_tags_resolve(repo)) by {
        if h.repos.contains_key(name) {
            assert(repo_is_truthful(h.repos[name]) && repo_tags_resolve(h.repos[name]));
        }
    }
}

/// A push keeps both invariants.
pub proof fn a_push_keeps_the_registry_sound(
    h: Holdings,
    name: Seq<char>,
    reference: Referred,
    content_type: Seq<char>,
    tags: Seq<Seq<char>>,
    body: Seq<u8>,
    digest: Digest,
)
    requires
        truthful(h),
        tags_resolve(h),
        verifies(digest, body),
    ensures
        truthful(pushed(h, name, reference, content_type, tags, body, digest)),
        tags_resolve(pushed(h, name, reference, content_type, tags, body, digest)),
{
    let after = pushed(h, name, reference, content_type, tags, body, digest);
    let m = ManifestModel { media_type: content_type, body, described: description_of(body) };
    let was = h.repo_or_new(name);
    let held = was.with_manifest(digest, m);
    let tagged = match reference {
        Referred::Tag(t) => held.with_tag(t, digest),
        Referred::Digest(_) => held,
    };
    assert(repo_is_truthful(was) && repo_tags_resolve(was)) by {
        if h.repos.contains_key(name) {
            assert(repo_is_truthful(h.repos[name]) && repo_tags_resolve(h.repos[name]));
        }
    }
    let repo = after.repos[name];
    lemma_tagged(tagged, tags, digest, Seq::empty());
    assert(repo_is_truthful(repo));
    assert forall|t: Seq<char>| #[trigger] repo.tags.contains_key(t) implies repo.manifests.contains_key(
        repo.tags[t],
    ) by {
        lemma_tagged(tagged, tags, digest, t);
        if !tags.contains(t) && reference != Referred::Tag(t) {
            assert(was.tags.contains_key(t));
        }
    }
    assert(repo_tags_resolve(repo));
}

/// A deletion keeps both invariants, by tag or by digest.
pub proof fn a_deletion_keeps_the_registry_sound(
    h: Holdings,
    name: Seq<char>,
    tag: Seq<char>,
    digest: Digest,
)
    requires
        truthful(h),
        tags_resolve(h),
        h.repos.contains_key(name),
    ensures
        ({
            let repo = h.repos[name];
            let untagged = h.with_repo(name, RepoModel { tags: repo.tags.remove(tag), ..repo });
            let without = h.with_repo(name, repo.without_manifest(digest));
            let unserved = h.with_repo(
                name,
                RepoModel { blobs: repo.blobs.remove(digest), ..repo },
            );
            &&& truthful(untagged) && tags_resolve(untagged)
            &&& truthful(without) && tags_resolve(without)
            &&& truthful(unserved) && tags_resolve(unserved)
        }),
{
    let repo = h.repos[name];
    assert(repo_is_truthful(repo) && repo_tags_resolve(repo));
    let untagged = RepoModel { tags: repo.tags.remove(tag), ..repo };
    let without = repo.without_manifest(digest);
    let unserved = RepoModel { blobs: repo.blobs.remove(digest), ..repo };
    assert(repo_is_truthful(untagged) && repo_tags_resolve(untagged));
    assert(repo_is_truthful(without));
    assert forall|t: Seq<char>| #[trigger] without.tags.contains_key(t) implies without.manifests.contains_key(
        without.tags[t],
    ) by {
        assert(repo.tags.contains_key(t));
    }
    assert(repo_tags_resolve(without));
    assert(repo_is_truthful(unserved) && repo_tags_resolve(unserved));
}

/// What is done to an upload under way touches nothing that is held.
pub proof fn uploads_keep_the_registry_sound(
    h: Holdings,
    name: Seq<char>,
    id: Seq<char>,
    session: SessionModel,
)
    requires
        truthful(h),
        tags_resolve(h),
    ensures
        truthful(h.with_upload(id, session)),
        tags_resolve(h.with_upload(id, session)),
        truthful(h.without_upload(id)),
        tags_resolve(h.without_upload(id)),
        truthful(h.with_repo(name, h.repo_or_new(name))),
        tags_resolve(h.with_repo(name, h.repo_or_new(name))),
{
    let repo = h.repo_or_new(name);
    assert(repo_is_truthful(repo) && repo_tags_resolve(repo)) by {
        if h.repos.contains_key(name) {
            assert(repo_is_truthful(h.repos[name]) && repo_tags_resolve(h.repos[name]));
        }
    }
}

/// A finished upload reads back what was sent, chunk after chunk, under a digest
/// that it hashes to.
pub proof fn a_finished_upload_reads_back(
    h: Holdings,
    name: Seq<char>,
    id: Seq<char>,
    chunk: Seq<u8>,
    digest: Digest,
)
    requires
        h.has_upload(name, id),
        completes(h.uploads[id], chunk, digest),
    ensures
        ({
            let after = h.without_upload(id).with_repo(
                name,
                h.repo_or_new(name).with_blob(digest, h.uploads[id].buffer + chunk),
            );
            &&& after.serves(name, digest)
            &&& after.repos[name].blobs[digest] == h.uploads[id].buffer + chunk
            &&& verifies(digest, after.repos[name].blobs[digest])
            &&& !after.has_upload(name, id)
        }),
{
}

// --- pages ---------------------------------------------------------------------

proof fn lemma_rest_is_tail(all: Seq<Seq<char>>, last: Option<Seq<char>>, i: int)
    requires
        ascending::<String>(all),
        0 <= i <= all.len(),
        forall|k: int| 0 <= k < i ==> !is_after(last, #[trigger] all[k]),
        forall|k: int| i <= k < all.len() ==> is_after(last, #[trigger] all[k]),
    ensures
        rest_after(all, last) == all.subrange(i, all.len() as int),
    decreases all.len(),
{
    reveal(Seq::filter);
    if all.len() > 0 {
        let front = all.drop_last();
        if i == all.len() {
            assert(!is_after(last, all[all.len() - 1]));
            lemma_front_ascends(all);
            lemma_rest_is_tail(front, last, i - 1);
            assert(front.subrange(i - 1, front.len() as int) =~= all.subrange(i, all.len() as int));
        } else {
            assert(is_after(last, all[all.len() - 1]));
            lemma_front_ascends(all);
            lemma_rest_is_tail(front, last, i);
            assert(all.subrange(i, all.len() as int) =~= front.subrange(
                i,
                front.len() as int,
            ).push(all.last()));
        }
    }
}

proof fn lemma_front_ascends(all: Seq<Seq<char>>)
    requires
        ascending::<String>(all),
        all.len() > 0,
    ensures
        ascending::<String>(all.drop_last()),
{
    let front = all.drop_last();
    assert forall|i: int, j: int| 0 <= i < j < front.len() implies lex_lt(
        #[trigger] <String as Key>::order(front[i]),
        #[trigger] <String as Key>::order(front[j]),
    ) by {
        assert(lex_lt(<String as Key>::order(all[i]), <String as Key>::order(all[j])));
    }
}

/// A list that ascends, resumed after one of its items, goes on with the next: a
/// walk from page to page meets every item once and in order.
pub proof fn a_cursor_resumes_where_its_page_ended(all: Seq<Seq<char>>, i: int)
    requires
        ascending::<String>(all),
        0 <= i < all.len(),
    ensures
        rest_after(all, None) == all,
        rest_after(all, Some(all[i])) == all.subrange(i + 1, all.len() as int),
{
    lemma_rest_is_tail(all, None, 0);
    assert(all.subrange(0, all.len() as int) =~= all);
    let last = Some(all[i]);
    assert forall|k: int| 0 <= k < i + 1 implies !is_after(last, #[trigger] all[k]) by {
        if k < i {
            assert(lex_lt(<String as Key>::order(all[k]), <String as Key>::order(all[i])));
            lex_asymmetric(encode_utf8(all[k]), encode_utf8(all[i]));
        } else {
            lex_irreflexive(encode_utf8(all[i]));
        }
    }
    assert forall|k: int| i + 1 <= k < all.len() implies is_after(last, #[trigger] all[k]) by {
        assert(lex_lt(<String as Key>::order(all[i]), <String as Key>::order(all[k])));
    }
    lemma_rest_is_tail(all, last, i + 1);
}

} // verus!
