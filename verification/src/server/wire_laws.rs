//! What a client can rely on, from one request to the next, when the registry in
//! memory answers.
use vstd::prelude::*;

use crate::digest::Digest;
use crate::server::app::Target;
use crate::server::config::ServerConfig;
use crate::server::error::{failure, ErrorCode, Failure};
use crate::server::handlers::blobs::handles_blob;
use crate::server::handlers::common::leads;
use crate::server::handlers::dispatch::handles;
use crate::server::handlers::manifests::{handles_manifest, pushed_type};
use crate::server::handlers::uploads::handles_session;
use crate::server::http::{header_text, Asked, BodyView, Method, Said};
use crate::server::memory::{is_step, pushed, verifies, Holdings, MemoryRegistry};
use crate::server::memory_laws::a_push_reads_back;
use crate::server::reference::{digests_are_requested_by_their_text, reference_request, Referred};
use crate::server::seam::{Event, Registry};

verus! {

/// A conversation with the registry in memory.
pub type Talk = Seq<Event<Vec<u8>, Vec<u8>>>;

/// What a request is answered with.
pub type Answer = Result<Said<Vec<u8>>, Failure>;

proof fn lemma_no_step(h: Holdings, talk: Talk, after: Holdings)
    requires
        leads::<MemoryRegistry>(h, talk, after),
        talk.len() == 0,
    ensures
        after == h,
{
}

proof fn lemma_last_step(h: Holdings, talk: Talk, after: Holdings) -> (between: Holdings)
    requires
        leads::<MemoryRegistry>(h, talk, after),
        talk.len() > 0,
    ensures
        leads::<MemoryRegistry>(h, talk.drop_last(), between),
        is_step(between, talk.last(), after),
{
    choose|between: Holdings|
        leads::<MemoryRegistry>(h, talk.drop_last(), between)
            && #[trigger] <MemoryRegistry as Registry>::steps(between, talk.last(), after)
}

proof fn lemma_one_step(h: Holdings, talk: Talk, after: Holdings)
    requires
        leads::<MemoryRegistry>(h, talk, after),
        talk.len() == 1,
    ensures
        is_step(h, talk[0], after),
{
    let between = lemma_last_step(h, talk, after);
    lemma_no_step(h, talk.drop_last(), between);
}

proof fn lemma_two_steps(h: Holdings, talk: Talk, after: Holdings) -> (between: Holdings)
    requires
        leads::<MemoryRegistry>(h, talk, after),
        talk.len() == 2,
    ensures
        is_step(h, talk[0], between),
        is_step(between, talk[1], after),
{
    let between = lemma_last_step(h, talk, after);
    lemma_one_step(h, talk.drop_last(), between);
    between
}

/// A request that is refused leaves everything as it was.
pub proof fn a_refused_request_changes_nothing(
    asked: Asked,
    config: ServerConfig,
    target: Target,
    id: Seq<char>,
    body: Vec<u8>,
    talk: Talk,
    said: Answer,
    h: Holdings,
    after: Holdings,
)
    requires
        handles(asked, config, target, id, body, talk, said),
        leads::<MemoryRegistry>(h, talk, after),
        said is Err,
    ensures
        after == h,
{
    if talk.len() == 0 {
        lemma_no_step(h, talk, after);
    } else if talk.len() == 1 {
        lemma_one_step(h, talk, after);
    } else {
        assert(talk.len() == 2);
        let between = lemma_two_steps(h, talk, after);
        assert(between == h);
    }
}

/// A request that only reads changes nothing, whatever it reads.
pub proof fn reading_changes_nothing(
    asked: Asked,
    config: ServerConfig,
    target: Target,
    id: Seq<char>,
    body: Vec<u8>,
    talk: Talk,
    said: Answer,
    h: Holdings,
    after: Holdings,
)
    requires
        handles(asked, config, target, id, body, talk, said),
        leads::<MemoryRegistry>(h, talk, after),
        asked.method == Method::Get || asked.method == Method::Head,
    ensures
        after == h,
{
    if talk.len() == 0 {
        lemma_no_step(h, talk, after);
    } else if talk.len() == 1 {
        lemma_one_step(h, talk, after);
    } else {
        assert(talk.len() == 2);
        let between = lemma_two_steps(h, talk, after);
        assert(between == h);
    }
}

/// A manifest that was pushed is pulled back byte for byte, with the type it was
/// pushed as, under the reference that it was pushed to.
pub proof fn a_pushed_manifest_is_pulled_back(
    push: Asked,
    pull: Asked,
    config: ServerConfig,
    name: Seq<char>,
    reference: Seq<char>,
    body: Vec<u8>,
    nothing: Vec<u8>,
    pushing: Talk,
    pulling: Talk,
    stored: Answer,
    said: Answer,
    h: Holdings,
    between: Holdings,
    after: Holdings,
)
    requires
        push.method == Method::Put,
        handles_manifest(push, config, name, reference, body, pushing, stored),
        leads::<MemoryRegistry>(h, pushing, between),
        stored is Ok,
        pull.method == Method::Get,
        pull.header("if-none-match"@) is None,
        handles_manifest(pull, config, name, reference, nothing, pulling, said),
        leads::<MemoryRegistry>(between, pulling, after),
    ensures
        said is Ok,
        (said->Ok_0).status == 200,
        (said->Ok_0).body == BodyView::<Vec<u8>>::Bytes(body@),
        (said->Ok_0).headers[0] == ("content-type"@, header_text(pushed_type(push))),
{
    let read = lemma_two_steps(h, pushing, between);
    lemma_one_step(between, pulling, after);
    let target = reference_request(reference)->Ok_0;
    match pushing[1] {
        Event::PutManifest(n, w, kind, tags, sent, r) => {
            let digest = (r->Ok_0).digest;
            assert(sent == body@);
            match target {
                Referred::Tag(t) => {
                    a_push_reads_back(read, n, w, kind, tags, sent, digest, t);
                },
                Referred::Digest(d) => {
                    lemma_push_by_digest(read, n, w, kind, tags, sent, digest);
                },
            }
        },
        _ => {},
    }
}

proof fn lemma_push_by_digest(
    h: Holdings,
    name: Seq<char>,
    reference: Referred,
    kind: Seq<char>,
    tags: Seq<Seq<char>>,
    body: Seq<u8>,
    digest: Digest,
)
    ensures
        ({
            let after = pushed(h, name, reference, kind, tags, body, digest);
            &&& after.repos.contains_key(name)
            &&& after.repos[name].lookup(Referred::Digest(digest)) is Some
            &&& (after.repos[name].lookup(Referred::Digest(digest))->0).0 == digest
            &&& (after.repos[name].lookup(Referred::Digest(digest))->0).1.media_type == kind
            &&& (after.repos[name].lookup(Referred::Digest(digest))->0).1.body == body
        }),
{
    // A tag may be added to the push without changing what it stores.
    let more = tags.push(Seq::empty());
    assert(more.last() == Seq::<char>::empty());
    assert(more.contains(Seq::empty()));
    a_push_reads_back(h, name, reference, kind, more, body, digest, Seq::empty());
    assert(more.drop_last() =~= tags);
    let a = pushed(h, name, reference, kind, tags, body, digest).repos[name];
    let b = pushed(h, name, reference, kind, more, body, digest).repos[name];
    assert(a.manifests == b.manifests);
}

/// A blob that was uploaded is pulled back: all that was sent, chunk after chunk,
/// under a digest that it hashes to.
pub proof fn an_uploaded_blob_is_pulled_back(
    close: Asked,
    pull: Asked,
    config: ServerConfig,
    name: Seq<char>,
    id: Seq<char>,
    body: Vec<u8>,
    digest: Digest,
    closing: Talk,
    pulling: Talk,
    stored: Answer,
    said: Answer,
    h: Holdings,
    between: Holdings,
    after: Holdings,
)
    requires
        close.method == Method::Put,
        close.param("digest"@) == Some(digest.text()),
        handles_session(close, config, name, id, body, closing, stored),
        leads::<MemoryRegistry>(h, closing, between),
        stored is Ok,
        pull.method == Method::Get,
        pull.header("range"@) is None,
        handles_blob(pull, name, digest.text(), pulling, said),
        leads::<MemoryRegistry>(between, pulling, after),
    ensures
        h.has_upload(name, id),
        said is Ok,
        (said->Ok_0).status == 200,
        (said->Ok_0).body matches BodyView::Blob(content) && content@ == h.uploads[id].buffer + body@
            && verifies(digest, content@),
{
    digests_are_requested_by_their_text(digest);
    let looked = lemma_two_steps(h, closing, between);
    if pulling.len() == 1 {
        lemma_one_step(between, pulling, after);
    } else {
        let sized = lemma_two_steps(between, pulling, after);
    }
}

/// A manifest that was deleted is gone at once: whatever it was deleted by no
/// longer leads to it.
pub proof fn a_deleted_manifest_is_gone(
    delete: Asked,
    pull: Asked,
    config: ServerConfig,
    name: Seq<char>,
    reference: Seq<char>,
    nothing: Vec<u8>,
    deleting: Talk,
    pulling: Talk,
    deleted: Answer,
    said: Answer,
    h: Holdings,
    between: Holdings,
    after: Holdings,
)
    requires
        delete.method == Method::Delete,
        handles_manifest(delete, config, name, reference, nothing, deleting, deleted),
        leads::<MemoryRegistry>(h, deleting, between),
        deleted is Ok,
        pull.method == Method::Get,
        handles_manifest(pull, config, name, reference, nothing, pulling, said),
        leads::<MemoryRegistry>(between, pulling, after),
    ensures
        said == Err::<Said<Vec<u8>>, Failure>(failure(ErrorCode::ManifestUnknown)),
{
    lemma_one_step(h, deleting, between);
    lemma_one_step(between, pulling, after);
}

/// A blob that was deleted from a repository is gone from it at once, and stays
/// wherever else it is.
pub proof fn a_deleted_blob_is_gone_here_alone(
    delete: Asked,
    pull: Asked,
    name: Seq<char>,
    other: Seq<char>,
    digest: Digest,
    deleting: Talk,
    pulling: Talk,
    deleted: Answer,
    said: Answer,
    h: Holdings,
    between: Holdings,
    after: Holdings,
)
    requires
        delete.method == Method::Delete,
        handles_blob(delete, name, digest.text(), deleting, deleted),
        leads::<MemoryRegistry>(h, deleting, between),
        deleted is Ok,
        pull.method == Method::Head,
        handles_blob(pull, other, digest.text(), pulling, said),
        leads::<MemoryRegistry>(between, pulling, after),
    ensures
        said is Ok == (other != name && h.serves(other, digest)),
        said is Err ==> said == Err::<Said<Vec<u8>>, Failure>(failure(ErrorCode::BlobUnknown)),
{
    digests_are_requested_by_their_text(digest);
    lemma_one_step(h, deleting, between);
    lemma_one_step(between, pulling, after);
}

} // verus!
