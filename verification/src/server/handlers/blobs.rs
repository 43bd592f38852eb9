//! `/v2/<name>/blobs/<digest>`.
//!
//! A range is answered with `206` or `416`, never by falling back to the whole
//! blob. Nothing on this path transforms the body: the digest is over the plain
//! bytes.
use vstd::prelude::*;

use crate::digest::Digest;
use crate::server::error::{bare_failure, failure_about, ApiError, ErrorCode, Failure};
use crate::server::handlers::common::{
    continues, lemma_nothing_yet, lemma_one_more, ops_error, ops_failure, since,
};
use crate::server::http::{
    answer, bodiless, empty_with_length, header, length_header, method_not_allowed, not_allowed,
    Asked, BodyView, Ctx, Handled, Method, Reply, ReplyBody, Said,
};
use crate::server::range::{
    parse_range, range_outcome, windows_lie_inside_the_blob, ByteRange, RangeOutcome,
};
use crate::server::reference::{digest_request, parse_digest};
use crate::server::seam::{BlobRead, Event, Registry};
use crate::text::{decimal, decimal_text};

verus! {

/// The window of a blob that a request asks for, or the refusal.
pub open spec fn window_asked(asked: Asked, total: u64) -> Result<Option<ByteRange>, Failure> {
    match asked.header("range"@) {
        None => Ok(None),
        Some(raw) => match range_outcome(raw, total) {
            RangeOutcome::Whole => Ok(None),
            RangeOutcome::Partial(w) => Ok(Some(w)),
            RangeOutcome::Unsatisfiable => Err(
                Failure {
                    headers: seq![("content-range"@, "bytes */"@ + decimal(total as nat))],
                    ..bare_failure(416)
                },
            ),
        },
    }
}

/// The headers that every answer about a blob carries.
pub open spec fn blob_headers(digest: Digest) -> Seq<(Seq<char>, Seq<char>)> {
    seq![
        ("content-type"@, "application/octet-stream"@),
        ("accept-ranges"@, "bytes"@),
        ("docker-content-digest"@, digest.text()),
    ]
}

/// Where a window stands in a blob, as a reply says it.
pub open spec fn window_text(w: ByteRange, total: u64) -> Seq<char> {
    "bytes "@ + decimal(w.start as nat) + "-"@ + decimal(w.end as nat) + "/"@ + decimal(
        total as nat,
    )
}

/// The answer that carries a blob or a window of it.
pub open spec fn blob_said<C>(digest: Digest, read: BlobRead<C>) -> Said<C> {
    match read.window {
        Some(w) => Said {
            status: 206,
            headers: blob_headers(digest).push(length_header((w.end - w.start + 1) as nat)).push(
                ("content-range"@, window_text(w, read.total_size)),
            ),
            body: BodyView::Blob(read.body),
        },
        None => Said {
            status: 200,
            headers: blob_headers(digest).push(length_header(read.total_size as nat)),
            body: BodyView::Blob(read.body),
        },
    }
}

/// Whether a window can be measured.
pub open spec fn measurable(window: Option<ByteRange>) -> bool {
    window matches Some(w) ==> w.start <= w.end && w.end - w.start < u64::MAX
}

/// The answer to a pull, from what the registry read. A window that is none is
/// this side's fault.
pub open spec fn read_answer<C>(digest: Digest, read: BlobRead<C>) -> Result<Said<C>, Failure> {
    if measurable(read.window) {
        Ok(blob_said(digest, read))
    } else {
        Err(Failure { message: "unreadable window"@, ..bare_failure(500) })
    }
}

/// Whether a pull asks the registry for the right window and makes the right
/// answer of what it says: the size first, because the range is resolved against
/// it before any byte is read.
pub open spec fn pulls_blob<B, C>(
    asked: Asked,
    name: Seq<char>,
    digest: Digest,
    talk: Seq<Event<B, C>>,
    said: Result<Said<C>, Failure>,
) -> bool {
    talk.len() > 0 && match talk[0] {
        Event::StatBlob(n, d, r) => n == name && d == digest && match r {
            Err(e) => talk.len() == 1 && said == Err::<Said<C>, Failure>(ops_failure(e)),
            Ok(total) => match window_asked(asked, total) {
                Err(f) => talk.len() == 1 && said == Err::<Said<C>, Failure>(f),
                Ok(window) => talk.len() == 2 && match talk[1] {
                    Event::GetBlob(n, d, w, r) => {
                        &&& n == name
                        &&& d == digest
                        &&& w == window
                        &&& said == match r {
                            Err(e) => Err::<Said<C>, Failure>(ops_failure(e)),
                            Ok(read) => read_answer(digest, read),
                        }
                    },
                    _ => false,
                },
            },
        },
        _ => false,
    }
}

/// Whether a `HEAD` asks for the size alone. `Range` is ignored: there is no body
/// to partition.
pub open spec fn heads_blob<B, C>(
    name: Seq<char>,
    digest: Digest,
    talk: Seq<Event<B, C>>,
    said: Result<Said<C>, Failure>,
) -> bool {
    talk.len() == 1 && match talk[0] {
        Event::StatBlob(n, d, r) => {
            &&& n == name
            &&& d == digest
            &&& said == match r {
                Err(e) => Err::<Said<C>, Failure>(ops_failure(e)),
                Ok(size) => Ok(bodiless(200, size as nat, blob_headers(digest))),
            }
        },
        _ => false,
    }
}

/// Whether a deletion asks for just that, under this name alone.
pub open spec fn deletes_blob<B, C>(
    name: Seq<char>,
    digest: Digest,
    talk: Seq<Event<B, C>>,
    said: Result<Said<C>, Failure>,
) -> bool {
    talk.len() == 1 && match talk[0] {
        Event::DeleteBlob(n, d, r) => {
            &&& n == name
            &&& d == digest
            &&& said == match r {
                Err(e) => Err::<Said<C>, Failure>(ops_failure(e)),
                Ok(_) => Ok(bodiless(202, 0, Seq::empty())),
            }
        },
        _ => false,
    }
}

/// Whether a request about a blob is handled as it should be.
pub open spec fn handles_blob<B, C>(
    asked: Asked,
    name: Seq<char>,
    raw_digest: Seq<char>,
    talk: Seq<Event<B, C>>,
    said: Result<Said<C>, Failure>,
) -> bool {
    match digest_request(raw_digest) {
        Err(words) => talk.len() == 0 && said == Err::<Said<C>, Failure>(
            failure_about(ErrorCode::DigestInvalid, words),
        ),
        Ok(digest) => match asked.method {
            Method::Get => pulls_blob(asked, name, digest, talk, said),
            Method::Head => heads_blob(name, digest, talk, said),
            Method::Delete => deletes_blob(name, digest, talk, said),
            _ => talk.len() == 0 && said == Err::<Said<C>, Failure>(
                not_allowed("GET, HEAD, DELETE"@),
            ),
        },
    }
}

pub fn handle<R: Registry>(ctx: &Ctx, registry: &mut R, name: &str, raw_digest: &str) -> (r: Handled<
    R::Content,
>)
    ensures
        continues(*old(registry), *final(registry)),
        handles_blob(
            ctx.request.deep_view(),
            name@,
            raw_digest@,
            since(old(registry).log(), final(registry).log()),
            answer(r),
        ),
{
    proof {
        lemma_nothing_yet(*old(registry));
    }
    let digest = match parse_digest(raw_digest) {
        Ok(digest) => digest,
        Err(e) => return Err(
            ApiError::new(ErrorCode::DigestInvalid).with_detail(e.0.as_str()),
        ),
    };
    match ctx.request.method {
        Method::Get => get(ctx, registry, name, &digest),
        Method::Head => head(registry, name, &digest),
        Method::Delete => delete(registry, name, &digest),
        _ => Err(method_not_allowed("GET, HEAD, DELETE")),
    }
}

/// The headers of an answer about a blob.
fn headers_of(digest: &Digest) -> (r: Vec<(String, String)>)
    ensures
        r.deep_view() == blob_headers(*digest),
{
    let mut headers: Vec<(String, String)> = Vec::new();
    headers.push(header("content-type", "application/octet-stream".to_owned()));
    headers.push(header("accept-ranges", "bytes".to_owned()));
    headers.push(header("docker-content-digest", digest.to_text()));
    assert(headers.deep_view() =~= blob_headers(*digest));
    headers
}

/// The window of a blob of `total` bytes that a request asks for.
pub fn window_of(ctx: &Ctx, total: u64) -> (r: Result<Option<ByteRange>, ApiError>)
    ensures
        match r {
            Ok(window) => window_asked(ctx.request.deep_view(), total) == Ok::<
                Option<ByteRange>,
                Failure,
            >(window) && (window matches Some(w) ==> w.start <= w.end < total),
            Err(e) => window_asked(ctx.request.deep_view(), total) == Err::<
                Option<ByteRange>,
                Failure,
            >(e.deep_view()),
        },
{
    let outcome = match ctx.request.header("range") {
        Some(raw) => {
            proof {
                windows_lie_inside_the_blob(raw@, total);
            }
            parse_range(raw, total)
        },
        None => RangeOutcome::Whole,
    };
    match outcome {
        RangeOutcome::Whole => Ok(None),
        RangeOutcome::Partial(range) => Ok(Some(range)),
        RangeOutcome::Unsatisfiable => {
            let text = "bytes */".to_owned().concat(decimal_text(total).as_str());
            let ghost said = text@;
            let e = ApiError::status_only(416).with_header("content-range", text);
            assert(e.deep_view().headers =~= seq![("content-range"@, said)]);
            Err(e)
        },
    }
}

/// The answer that carries what the registry read of a blob.
pub fn blob_reply<C>(digest: &Digest, read: BlobRead<C>) -> (r: Handled<C>)
    ensures
        answer(r) == read_answer(*digest, read),
{
    let mut headers = headers_of(digest);
    let status: u16 = match read.window {
        Some(w) => {
            if w.start > w.end || w.end - w.start == u64::MAX {
                return Err(ApiError::internal("unreadable window".to_owned()));
            }
            headers.push(header("content-length", decimal_text(w.size())));
            let mut text = "bytes ".to_owned();
            text.append(decimal_text(w.start).as_str());
            text.append("-");
            text.append(decimal_text(w.end).as_str());
            text.append("/");
            text.append(decimal_text(read.total_size).as_str());
            headers.push(header("content-range", text));
            206
        },
        None => {
            headers.push(header("content-length", decimal_text(read.total_size)));
            200
        },
    };
    assert(headers.deep_view() =~= blob_said(*digest, read).headers);
    Ok(Reply { status, headers, body: ReplyBody::Blob(read.body) })
}

fn get<R: Registry>(ctx: &Ctx, registry: &mut R, name: &str, digest: &Digest) -> (r: Handled<
    R::Content,
>)
    ensures
        continues(*old(registry), *final(registry)),
        pulls_blob(
            ctx.request.deep_view(),
            name@,
            *digest,
            since(old(registry).log(), final(registry).log()),
            answer(r),
        ),
{
    let ghost before = *registry;
    let size = registry.stat_blob(name, digest);
    proof {
        lemma_nothing_yet(before);
        lemma_one_more(before, before, *registry, Event::StatBlob(name@, *digest, size));
    }
    let total = match size {
        Ok(total) => total,
        Err(e) => return Err(ops_error(e)),
    };
    let window = match window_of(ctx, total) {
        Ok(window) => window,
        Err(e) => return Err(e),
    };
    let ghost between = *registry;
    let got = registry.get_blob(name, digest, window);
    proof {
        lemma_one_more(before, between, *registry, Event::GetBlob(name@, *digest, window, got));
    }
    match got {
        Ok(read) => blob_reply(digest, read),
        Err(e) => Err(ops_error(e)),
    }
}

fn head<R: Registry>(registry: &mut R, name: &str, digest: &Digest) -> (r: Handled<R::Content>)
    ensures
        continues(*old(registry), *final(registry)),
        heads_blob(
            name@,
            *digest,
            since(old(registry).log(), final(registry).log()),
            answer(r),
        ),
{
    let ghost before = *registry;
    let size = registry.stat_blob(name, digest);
    proof {
        lemma_nothing_yet(before);
        lemma_one_more(before, before, *registry, Event::StatBlob(name@, *digest, size));
    }
    match size {
        Ok(size) => Ok(empty_with_length(200, size, headers_of(digest))),
        Err(e) => Err(ops_error(e)),
    }
}

fn delete<R: Registry>(registry: &mut R, name: &str, digest: &Digest) -> (r: Handled<R::Content>)
    ensures
        continues(*old(registry), *final(registry)),
        deletes_blob(
            name@,
            *digest,
            since(old(registry).log(), final(registry).log()),
            answer(r),
        ),
{
    let ghost before = *registry;
    let done = registry.delete_blob(name, digest);
    proof {
        lemma_nothing_yet(before);
        lemma_one_more(before, before, *registry, Event::DeleteBlob(name@, *digest, done));
    }
    match done {
        Ok(_) => {
            let none: Vec<(String, String)> = Vec::new();
            assert(none.deep_view() =~= Seq::empty());
            Ok(empty_with_length(202, 0, none))
        },
        Err(e) => Err(ops_error(e)),
    }
}

} // verus!
