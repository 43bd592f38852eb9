//! The blob upload state machine.
//!
//! | Flow | Shape |
//! |---|---|
//! | monolithic | `POST` -> `202`, then `PUT ?digest=` -> `201` |
//! | single POST | `POST ?digest=` with the body -> `201` |
//! | streamed | `POST`, `PATCH` with **no** `Content-Range`, `PUT ?digest=` |
//! | chunked | `POST`, repeated `PATCH` with `Content-Range`, `PUT ?digest=` |
//!
//! A `PATCH` that does not carry both `Content-Range` and `Content-Length` is a
//! stream. An out-of-order chunk is a `416` and leaves the session untouched: the
//! offset is checked before a single byte is handed to the registry.
use vstd::prelude::*;

use crate::digest::Digest;
use crate::server::app::{blob_path, upload_path};
use crate::server::config::ServerConfig;
use crate::server::error::{failure_about, ApiError, ErrorCode, Failure};
use crate::server::handlers::common::{
    continues, lemma_both, lemma_nothing_yet, lemma_one_more, ops_error, ops_failure, out_of_order,
    since, size_mismatch, size_words,
};
use crate::server::http::{
    answer, bodiless, empty_with_length, header, header_text, header_value, method_not_allowed,
    not_allowed, Asked, Ctx, Handled, Method, Reply, Said,
};
use crate::server::range::{
    chunk_range, parse_chunk_range, upload_range_header, ByteRange, ChunkRangeError,
};
use crate::server::reference::{digest_request, is_name, parse_digest, valid_name};
use crate::server::seam::{optional_text, Event, Registry, UploadBody};
use crate::text::{chars_of, decimal, decimal_text, parse_u64, parsed_unsigned, str_eq};

verus! {

// --- replies -------------------------------------------------------------------

/// The range that an upload reports at an offset.
pub open spec fn reported_range(offset: u64) -> Seq<char> {
    "0-"@ + decimal(
        if offset == 0 {
            0nat
        } else {
            (offset - 1) as nat
        },
    )
}

/// Where an upload stands.
pub open spec fn session_headers(name: Seq<char>, id: Seq<char>, offset: u64) -> Seq<
    (Seq<char>, Seq<char>),
> {
    seq![
        ("location"@, header_text(upload_path(name, id))),
        ("range"@, header_text(reported_range(offset))),
    ]
}

/// The answer that names a stored blob: a pullable location, not the upload's.
pub open spec fn stored_said<C>(name: Seq<char>, digest: Digest) -> Said<C> {
    bodiless(
        201,
        0,
        seq![
            ("location"@, header_text(blob_path(name, digest.text()))),
            ("docker-content-digest"@, digest.text()),
        ],
    )
}

fn headers_of(name: &str, id: &str, offset: u64) -> (r: Vec<(String, String)>)
    ensures
        r.deep_view() == session_headers(name@, id@, offset),
{
    let mut location = "/v2/".to_owned();
    location.append(name);
    location.append("/blobs/uploads/");
    location.append(id);
    let mut headers: Vec<(String, String)> = Vec::new();
    headers.push(header("location", header_value(location)));
    headers.push(header("range", header_value(upload_range_header(offset))));
    assert(headers.deep_view() =~= session_headers(name@, id@, offset));
    headers
}

fn stored_reply<C>(name: &str, digest: &Digest) -> (r: Reply<C>)
    ensures
        r.deep_view() == stored_said::<C>(name@, *digest),
{
    let mut location = "/v2/".to_owned();
    location.append(name);
    location.append("/blobs/");
    location.append(digest.to_text().as_str());
    let mut headers: Vec<(String, String)> = Vec::new();
    headers.push(header("location", header_value(location)));
    headers.push(header("docker-content-digest", digest.to_text()));
    assert(headers.deep_view() =~= seq![
        ("location"@, header_text(blob_path(name@, digest.text()))),
        ("docker-content-digest"@, digest.text()),
    ]);
    empty_with_length(201, 0, headers)
}

// --- what a request asks -------------------------------------------------------

/// The digest that a query parameter names, or the refusal.
pub open spec fn digest_param(raw: Seq<char>) -> Result<Digest, Failure> {
    match digest_request(raw) {
        Ok(d) => Ok(d),
        Err(words) => Err(failure_about(ErrorCode::DigestInvalid, words)),
    }
}

fn digest_of_param(raw: &str) -> (r: Result<Digest, ApiError>)
    ensures
        match r {
            Ok(d) => digest_param(raw@) == Ok::<Digest, Failure>(d),
            Err(e) => digest_param(raw@) == Err::<Digest, Failure>(e.deep_view()),
        },
{
    match parse_digest(raw) {
        Ok(d) => Ok(d),
        Err(e) => Err(ApiError::new(ErrorCode::DigestInvalid).with_detail(e.0.as_str())),
    }
}

/// What a request says of the chunk it carries, against the session's offset: its
/// length when it is a chunk, nothing when it is a stream, or the refusal.
pub open spec fn chunk_claim(asked: Asked, offset: u64) -> Result<Option<u64>, Failure> {
    match (asked.header("content-range"@), chunk_length(asked)) {
        (Some(raw), Some(length)) => match chunk_range(raw) {
            Err(Some(detail)) => Err(
                Failure {
                    message: "malformed Content-Range"@,
                    ..failure_about(ErrorCode::BlobUploadInvalid, detail)
                },
            ),
            Err(None) => Err(
                Failure {
                    message: "Content-Range start is after its end"@,
                    ..failure_about(ErrorCode::BlobUploadInvalid, raw)
                },
            ),
            Ok(range) => {
                let size = (range.end - range.start + 1) as nat;
                if size != length {
                    Err(failure_about(ErrorCode::SizeInvalid, size_words(size, length)))
                } else if range.start != offset {
                    Err(
                        out_of_order(
                            "expected the chunk to start at "@ + decimal(offset as nat)
                                + ", got "@ + decimal(range.start as nat),
                        ),
                    )
                } else {
                    Ok(Some(length as u64))
                }
            },
        },
        _ => Ok(None),
    }
}

/// The length that a request declares.
pub open spec fn chunk_length(asked: Asked) -> Option<nat> {
    match asked.header("content-length"@) {
        Some(v) => parsed_unsigned(v, u64::MAX as nat),
        None => None,
    }
}

/// Validate a chunk's `Content-Range` against the session's committed offset,
/// before any byte is written.
pub fn validate_chunk(ctx: &Ctx, offset: u64) -> (r: Result<Option<u64>, ApiError>)
    ensures
        match r {
            Ok(declared) => chunk_claim(ctx.request.deep_view(), offset) == Ok::<
                Option<u64>,
                Failure,
            >(declared),
            Err(e) => chunk_claim(ctx.request.deep_view(), offset) == Err::<Option<u64>, Failure>(
                e.deep_view(),
            ),
        },
{
    let raw = match ctx.request.header("content-range") {
        Some(raw) => raw,
        None => return Ok(None),
    };
    let length = match ctx.request.header("content-length") {
        Some(v) => {
            let chars = chars_of(v);
            match parse_u64(chars.as_slice()) {
                Some(n) => n,
                None => return Ok(None),
            }
        },
        None => return Ok(None),
    };
    let range = match parse_chunk_range(raw) {
        Ok(range) => range,
        Err(ChunkRangeError::Malformed(detail)) => {
            return Err(
                ApiError::new(ErrorCode::BlobUploadInvalid).with_message(
                    "malformed Content-Range",
                ).with_detail(detail.as_str()),
            );
        },
        Err(ChunkRangeError::Inverted) => {
            return Err(
                ApiError::new(ErrorCode::BlobUploadInvalid).with_message(
                    "Content-Range start is after its end",
                ).with_detail(raw),
            );
        },
    };
    let span = range.end - range.start;
    if span == u64::MAX {
        proof {
            lemma_whole_span();
        }
        return Err(size_mismatch("18446744073709551616", length));
    }
    if range.size() != length {
        return Err(size_mismatch(decimal_text(range.size()).as_str(), length));
    }
    if range.start != offset {
        let mut detail = "expected the chunk to start at ".to_owned();
        detail.append(decimal_text(offset).as_str());
        detail.append(", got ");
        detail.append(decimal_text(range.start).as_str());
        return Err(
            ApiError::new(ErrorCode::BlobUploadInvalid).with_status(416).with_message(
                "chunk is out of order",
            ).with_detail(detail.as_str()),
        );
    }
    Ok(Some(length))
}

/// The largest range that can be written has one more byte than the largest
/// number.
proof fn lemma_whole_span()
    ensures
        decimal((u64::MAX + 1) as nat) == "18446744073709551616"@,
{
    reveal_strlit("18446744073709551616");
    reveal_with_fuel(decimal, 21);
    assert(decimal(18446744073709551616nat) =~= "18446744073709551616"@);
}

/// The algorithm that a session is opened under, or the refusal.
pub open spec fn algorithm_asked(asked: Asked) -> Result<Seq<char>, Failure> {
    match asked.param("digest-algorithm"@) {
        None => Ok("sha256"@),
        Some(a) => if a.len() == 0 {
            Ok("sha256"@)
        } else if a == "sha256"@ || a == "sha512"@ {
            Ok(a)
        } else {
            Err(
                Failure {
                    message: "unsupported digest algorithm"@,
                    ..failure_about(ErrorCode::DigestInvalid, a)
                },
            )
        },
    }
}

/// `?digest-algorithm=` selects which hasher the session carries, and therefore
/// which algorithm the committed blob is addressed under.
pub fn digest_algorithm(ctx: &Ctx) -> (r: Result<String, ApiError>)
    ensures
        match r {
            Ok(a) => algorithm_asked(ctx.request.deep_view()) == Ok::<Seq<char>, Failure>(a@),
            Err(e) => algorithm_asked(ctx.request.deep_view()) == Err::<Seq<char>, Failure>(
                e.deep_view(),
            ),
        },
{
    match ctx.request.param("digest-algorithm") {
        None => Ok("sha256".to_owned()),
        Some(a) => if chars_of(a).len() == 0 {
            Ok("sha256".to_owned())
        } else if str_eq(a, "sha256") || str_eq(a, "sha512") {
            Ok(a.to_owned())
        } else {
            Err(
                ApiError::new(ErrorCode::DigestInvalid).with_message(
                    "unsupported digest algorithm",
                ).with_detail(a),
            )
        },
    }
}

/// A body with the limits that it is held to. Neither can be checked before the
/// bytes arrive, so they travel with it.
pub open spec fn limited<B>(config: ServerConfig, body: B, declared: Option<u64>) -> UploadBody<B> {
    UploadBody { body, declared, limit: Some(config.max_upload_chunk_bytes as u64) }
}

fn upload_body<B>(ctx: &Ctx, body: B, declared: Option<u64>) -> (r: UploadBody<B>)
    ensures
        r == limited(*ctx.config, body, declared),
{
    UploadBody { body, declared, limit: Some(ctx.config.max_upload_chunk_bytes as u64) }
}

// --- opening -------------------------------------------------------------------

/// The repository that a mount names as its source. One outside the grammar is
/// ignored rather than rejected.
pub open spec fn mount_source(asked: Asked) -> Option<Seq<char>> {
    match asked.param("from"@) {
        Some(f) => if is_name(f) {
            Some(f)
        } else {
            None
        },
        None => None,
    }
}

/// The headers that announce a new session.
pub open spec fn opened_headers(name: Seq<char>, id: Seq<char>, config: ServerConfig) -> Seq<
    (Seq<char>, Seq<char>),
> {
    let plain = session_headers(name, id, 0);
    match config.chunk_min_length {
        Some(min) => plain.push(("oci-chunk-min-length"@, decimal(min as nat))),
        None => plain,
    }
}

/// Whether an upload that was not mounted is opened as it should be: whole, if the
/// request names its digest, and as a session otherwise.
pub open spec fn opens<B, C>(
    asked: Asked,
    config: ServerConfig,
    name: Seq<char>,
    id: Seq<char>,
    body: B,
    talk: Seq<Event<B, C>>,
    said: Result<Said<C>, Failure>,
) -> bool {
    match asked.param("digest"@) {
        Some(raw) => match digest_param(raw) {
            Err(f) => talk.len() == 0 && said == Err::<Said<C>, Failure>(f),
            Ok(digest) => talk.len() == 1 && match talk[0] {
                Event::PutBlob(n, d, b, r) => {
                    &&& n == name
                    &&& d == digest
                    &&& b == limited(config, body, None)
                    &&& said == match r {
                        Err(e) => Err::<Said<C>, Failure>(ops_failure(e)),
                        Ok(_) => Ok(stored_said(name, digest)),
                    }
                },
                _ => false,
            },
        },
        None => match algorithm_asked(asked) {
            Err(f) => talk.len() == 0 && said == Err::<Said<C>, Failure>(f),
            Ok(algorithm) => talk.len() == 1 && match talk[0] {
                Event::CreateUpload(n, i, a, r) => {
                    &&& n == name
                    &&& i == id
                    &&& a == algorithm
                    &&& said == match r {
                        Err(e) => Err::<Said<C>, Failure>(ops_failure(e)),
                        Ok(_) => Ok(bodiless(202, 0, opened_headers(name, id, config))),
                    }
                },
                _ => false,
            },
        },
    }
}

/// Whether an upload is begun as it should be. A mount that is refused, or whose
/// digest cannot be read, is no error: the client is told to upload normally.
pub open spec fn creates<B, C>(
    asked: Asked,
    config: ServerConfig,
    name: Seq<char>,
    id: Seq<char>,
    body: B,
    talk: Seq<Event<B, C>>,
    said: Result<Said<C>, Failure>,
) -> bool {
    if asked.method != Method::Post {
        talk.len() == 0 && said == Err::<Said<C>, Failure>(not_allowed("POST"@))
    } else {
        match asked.param("mount"@) {
            None => opens(asked, config, name, id, body, talk, said),
            Some(raw) => match digest_request(raw) {
                Err(_) => opens(asked, config, name, id, body, talk, said),
                Ok(digest) => talk.len() > 0 && match talk[0] {
                    Event::MountBlob(n, d, from, r) => {
                        &&& n == name
                        &&& d == digest
                        &&& from == mount_source(asked)
                        &&& match r {
                            Err(e) => talk.len() == 1 && said == Err::<Said<C>, Failure>(
                                ops_failure(e),
                            ),
                            Ok(true) => talk.len() == 1 && said == Ok::<Said<C>, Failure>(
                                stored_said(name, digest),
                            ),
                            Ok(false) => opens(
                                asked,
                                config,
                                name,
                                id,
                                body,
                                talk.drop_first(),
                                said,
                            ),
                        }
                    },
                    _ => false,
                },
            },
        }
    }
}

fn open<R: Registry>(ctx: &Ctx, registry: &mut R, name: &str, id: &str, body: R::Body) -> (r: Handled<
    R::Content,
>)
    ensures
        continues(*old(registry), *final(registry)),
        opens(
            ctx.request.deep_view(),
            *ctx.config,
            name@,
            id@,
            body,
            since(old(registry).log(), final(registry).log()),
            answer(r),
        ),
{
    let ghost before = *registry;
    proof {
        lemma_nothing_yet(before);
    }
    if let Some(raw) = ctx.request.param("digest") {
        let digest = match digest_of_param(raw) {
            Ok(digest) => digest,
            Err(e) => return Err(e),
        };
        let whole = upload_body(ctx, body, None);
        let ghost sent = whole;
        let done = registry.put_blob(name, &digest, whole);
        proof {
            lemma_one_more(before, before, *registry, Event::PutBlob(name@, digest, sent, done));
        }
        return match done {
            Ok(_) => Ok(stored_reply(name, &digest)),
            Err(e) => Err(ops_error(e)),
        };
    }
    let algorithm = match digest_algorithm(ctx) {
        Ok(algorithm) => algorithm,
        Err(e) => return Err(e),
    };
    let done = registry.create_upload(name, id, algorithm.as_str());
    proof {
        lemma_one_more(before, before, *registry, Event::CreateUpload(name@, id@, algorithm@, done));
    }
    if let Err(e) = done {
        return Err(ops_error(e));
    }
    let mut headers = headers_of(name, id, 0);
    if let Some(min) = ctx.config.chunk_min_length {
        let ghost plain = headers.deep_view();
        headers.push(header("oci-chunk-min-length", decimal_text(min)));
        assert(headers.deep_view() =~= plain.push(
            ("oci-chunk-min-length"@, decimal(min as nat)),
        ));
    }
    Ok(empty_with_length(202, 0, headers))
}

/// `POST /v2/<name>/blobs/uploads/`.
///
/// `id` is minted by the caller, so that what is written down below contains
/// nothing that was made up on the way.
pub fn create<R: Registry>(
    ctx: &Ctx,
    registry: &mut R,
    name: &str,
    id: &str,
    body: R::Body,
) -> (r: Handled<R::Content>)
    ensures
        continues(*old(registry), *final(registry)),
        creates(
            ctx.request.deep_view(),
            *ctx.config,
            name@,
            id@,
            body,
            since(old(registry).log(), final(registry).log()),
            answer(r),
        ),
{
    let ghost before = *registry;
    proof {
        lemma_nothing_yet(before);
    }
    if ctx.request.method != Method::Post {
        return Err(method_not_allowed("POST"));
    }
    if let Some(raw) = ctx.request.param("mount") {
        if let Ok(digest) = parse_digest(raw) {
            let from = match ctx.request.param("from") {
                Some(f) => if valid_name(f) {
                    Some(f)
                } else {
                    None
                },
                None => None,
            };
            let mounted = registry.mount_blob(name, &digest, from);
            proof {
                lemma_one_more(
                    before,
                    before,
                    *registry,
                    Event::MountBlob(name@, digest, optional_text(from), mounted),
                );
            }
            match mounted {
                Err(e) => return Err(ops_error(e)),
                Ok(true) => return Ok(stored_reply(name, &digest)),
                Ok(false) => {
                    let ghost between = *registry;
                    let r = open(ctx, registry, name, id, body);
                    proof {
                        lemma_both(before, between, *registry);
                        let first = since(before.log(), between.log());
                        let rest = since(between.log(), registry.log());
                        assert(first.len() == 1);
                        assert((first + rest).drop_first() =~= rest);
                        assert((first + rest)[0] == first[0]);
                    }
                    return r;
                },
            }
        }
    }
    open(ctx, registry, name, id, body)
}

// --- sessions ------------------------------------------------------------------

/// Whether a chunk is taken in as it should be: the offset first, then what the
/// request claims of its chunk, and only then the body.
pub open spec fn appends<B, C>(
    asked: Asked,
    config: ServerConfig,
    name: Seq<char>,
    id: Seq<char>,
    body: B,
    talk: Seq<Event<B, C>>,
    said: Result<Said<C>, Failure>,
) -> bool {
    talk.len() > 0 && match talk[0] {
        Event::UploadOffset(n, i, r) => n == name && i == id && match r {
            Err(e) => talk.len() == 1 && said == Err::<Said<C>, Failure>(ops_failure(e)),
            Ok(offset) => match chunk_claim(asked, offset) {
                Err(f) => talk.len() == 1 && said == Err::<Said<C>, Failure>(f),
                Ok(declared) => talk.len() == 2 && match talk[1] {
                    Event::AppendUpload(n, i, o, b, r) => {
                        &&& n == name
                        &&& i == id
                        &&& o == offset
                        &&& b == limited(config, body, declared)
                        &&& said == match r {
                            Err(e) => Err::<Said<C>, Failure>(ops_failure(e)),
                            Ok(now) => Ok(bodiless(202, 0, session_headers(name, id, now))),
                        }
                    },
                    _ => false,
                },
            },
        },
        _ => false,
    }
}

fn patch<R: Registry>(ctx: &Ctx, registry: &mut R, name: &str, id: &str, body: R::Body) -> (r: Handled<
    R::Content,
>)
    ensures
        continues(*old(registry), *final(registry)),
        appends(
            ctx.request.deep_view(),
            *ctx.config,
            name@,
            id@,
            body,
            since(old(registry).log(), final(registry).log()),
            answer(r),
        ),
{
    let ghost before = *registry;
    let at = registry.upload_offset(name, id);
    proof {
        lemma_nothing_yet(before);
        lemma_one_more(before, before, *registry, Event::UploadOffset(name@, id@, at));
    }
    let offset = match at {
        Ok(offset) => offset,
        Err(e) => return Err(ops_error(e)),
    };
    let declared = match validate_chunk(ctx, offset) {
        Ok(declared) => declared,
        Err(e) => return Err(e),
    };
    let chunk = upload_body(ctx, body, declared);
    let ghost sent = chunk;
    let ghost between = *registry;
    let done = registry.append_upload(name, id, offset, chunk);
    proof {
        lemma_one_more(before, between, *registry, Event::AppendUpload(name@, id@, offset, sent, done));
    }
    match done {
        Ok(now) => Ok(empty_with_length(202, 0, headers_of(name, id, now))),
        Err(e) => Err(ops_error(e)),
    }
}

/// Whether an upload is closed as it should be. The `?digest=` parameter is the
/// only place a whole-blob digest is named; a final chunk is held to the same rule
/// as any other.
pub open spec fn finishes<B, C>(
    asked: Asked,
    config: ServerConfig,
    name: Seq<char>,
    id: Seq<char>,
    body: B,
    talk: Seq<Event<B, C>>,
    said: Result<Said<C>, Failure>,
) -> bool {
    match asked.param("digest"@) {
        None => talk.len() == 0 && said == Err::<Said<C>, Failure>(
            Failure {
                message: "digest query parameter is required to close an upload"@,
                ..crate::server::error::failure(ErrorCode::DigestInvalid)
            },
        ),
        Some(raw) => match digest_param(raw) {
            Err(f) => talk.len() == 0 && said == Err::<Said<C>, Failure>(f),
            Ok(digest) => talk.len() > 0 && match talk[0] {
                Event::UploadOffset(n, i, r) => n == name && i == id && match r {
                    Err(e) => talk.len() == 1 && said == Err::<Said<C>, Failure>(ops_failure(e)),
                    Ok(offset) => match chunk_claim(asked, offset) {
                        Err(f) => talk.len() == 1 && said == Err::<Said<C>, Failure>(f),
                        Ok(declared) => talk.len() == 2 && match talk[1] {
                            Event::FinishUpload(n, i, o, b, d, r) => {
                                &&& n == name
                                &&& i == id
                                &&& o == offset
                                &&& b == limited(config, body, declared)
                                &&& d == digest
                                &&& said == match r {
                                    Err(e) => Err::<Said<C>, Failure>(ops_failure(e)),
                                    Ok(_) => Ok(stored_said(name, digest)),
                                }
                            },
                            _ => false,
                        },
                    },
                },
                _ => false,
            },
        },
    }
}

fn finish<R: Registry>(ctx: &Ctx, registry: &mut R, name: &str, id: &str, body: R::Body) -> (r:
    Handled<R::Content>)
    ensures
        continues(*old(registry), *final(registry)),
        finishes(
            ctx.request.deep_view(),
            *ctx.config,
            name@,
            id@,
            body,
            since(old(registry).log(), final(registry).log()),
            answer(r),
        ),
{
    let ghost before = *registry;
    proof {
        lemma_nothing_yet(before);
    }
    let raw = match ctx.request.param("digest") {
        Some(raw) => raw,
        None => {
            return Err(
                ApiError::new(ErrorCode::DigestInvalid).with_message(
                    "digest query parameter is required to close an upload",
                ),
            );
        },
    };
    let digest = match digest_of_param(raw) {
        Ok(digest) => digest,
        Err(e) => return Err(e),
    };
    let at = registry.upload_offset(name, id);
    proof {
        lemma_one_more(before, before, *registry, Event::UploadOffset(name@, id@, at));
    }
    let offset = match at {
        Ok(offset) => offset,
        Err(e) => return Err(ops_error(e)),
    };
    let declared = match validate_chunk(ctx, offset) {
        Ok(declared) => declared,
        Err(e) => return Err(e),
    };
    let chunk = upload_body(ctx, body, declared);
    let ghost sent = chunk;
    let ghost between = *registry;
    let done = registry.finish_upload(name, id, offset, chunk, &digest);
    proof {
        lemma_one_more(
            before,
            between,
            *registry,
            Event::FinishUpload(name@, id@, offset, sent, digest, done),
        );
    }
    match done {
        Ok(_) => Ok(stored_reply(name, &digest)),
        Err(e) => Err(ops_error(e)),
    }
}

/// Whether a session's status is asked and told. `204`, not `200`: this is the
/// recovery after a `416`, and the client reads the surviving offset out of
/// `Range`.
pub open spec fn tells_status<B, C>(
    name: Seq<char>,
    id: Seq<char>,
    talk: Seq<Event<B, C>>,
    said: Result<Said<C>, Failure>,
) -> bool {
    talk.len() == 1 && match talk[0] {
        Event::UploadOffset(n, i, r) => {
            &&& n == name
            &&& i == id
            &&& said == match r {
                Err(e) => Err::<Said<C>, Failure>(ops_failure(e)),
                Ok(offset) => Ok(bodiless(204, 0, session_headers(name, id, offset))),
            }
        },
        _ => false,
    }
}

fn status<R: Registry>(registry: &mut R, name: &str, id: &str) -> (r: Handled<R::Content>)
    ensures
        continues(*old(registry), *final(registry)),
        tells_status(name@, id@, since(old(registry).log(), final(registry).log()), answer(r)),
{
    let ghost before = *registry;
    let at = registry.upload_offset(name, id);
    proof {
        lemma_nothing_yet(before);
        lemma_one_more(before, before, *registry, Event::UploadOffset(name@, id@, at));
    }
    match at {
        Ok(offset) => Ok(empty_with_length(204, 0, headers_of(name, id, offset))),
        Err(e) => Err(ops_error(e)),
    }
}

pub open spec fn cancels<B, C>(
    name: Seq<char>,
    id: Seq<char>,
    talk: Seq<Event<B, C>>,
    said: Result<Said<C>, Failure>,
) -> bool {
    talk.len() == 1 && match talk[0] {
        Event::CancelUpload(n, i, r) => {
            &&& n == name
            &&& i == id
            &&& said == match r {
                Err(e) => Err::<Said<C>, Failure>(ops_failure(e)),
                Ok(_) => Ok(bodiless(204, 0, Seq::empty())),
            }
        },
        _ => false,
    }
}

fn cancel<R: Registry>(registry: &mut R, name: &str, id: &str) -> (r: Handled<R::Content>)
    ensures
        continues(*old(registry), *final(registry)),
        cancels(name@, id@, since(old(registry).log(), final(registry).log()), answer(r)),
{
    let ghost before = *registry;
    let done = registry.cancel_upload(name, id);
    proof {
        lemma_nothing_yet(before);
        lemma_one_more(before, before, *registry, Event::CancelUpload(name@, id@, done));
    }
    match done {
        Ok(_) => {
            let none: Vec<(String, String)> = Vec::new();
            assert(none.deep_view() =~= Seq::empty());
            Ok(empty_with_length(204, 0, none))
        },
        Err(e) => Err(ops_error(e)),
    }
}

/// Whether a request to an upload's location is handled as it should be.
pub open spec fn handles_session<B, C>(
    asked: Asked,
    config: ServerConfig,
    name: Seq<char>,
    id: Seq<char>,
    body: B,
    talk: Seq<Event<B, C>>,
    said: Result<Said<C>, Failure>,
) -> bool {
    match asked.method {
        Method::Patch => appends(asked, config, name, id, body, talk, said),
        Method::Put => finishes(asked, config, name, id, body, talk, said),
        Method::Get => tells_status(name, id, talk, said),
        Method::Delete => cancels(name, id, talk, said),
        _ => talk.len() == 0 && said == Err::<Said<C>, Failure>(
            not_allowed("GET, PATCH, PUT, DELETE"@),
        ),
    }
}

/// Everything addressed at an upload's location.
pub fn session<R: Registry>(
    ctx: &Ctx,
    registry: &mut R,
    name: &str,
    id: &str,
    body: R::Body,
) -> (r: Handled<R::Content>)
    ensures
        continues(*old(registry), *final(registry)),
        handles_session(
            ctx.request.deep_view(),
            *ctx.config,
            name@,
            id@,
            body,
            since(old(registry).log(), final(registry).log()),
            answer(r),
        ),
{
    proof {
        lemma_nothing_yet(*old(registry));
    }
    match ctx.request.method {
        Method::Patch => patch(ctx, registry, name, id, body),
        Method::Put => finish(ctx, registry, name, id, body),
        Method::Get => status(registry, name, id),
        Method::Delete => cancel(registry, name, id),
        _ => Err(method_not_allowed("GET, PATCH, PUT, DELETE")),
    }
}

// --- laws ----------------------------------------------------------------------

/// A chunk that does not begin at the session's offset is refused whatever its
/// body, and the registry is asked nothing but the offset: the session is
/// untouched.
pub proof fn an_out_of_order_chunk_touches_nothing<B, C>(
    asked: Asked,
    config: ServerConfig,
    name: Seq<char>,
    id: Seq<char>,
    body: B,
    talk: Seq<Event<B, C>>,
    said: Result<Said<C>, Failure>,
    offset: u64,
    range: ByteRange,
)
    requires
        appends(asked, config, name, id, body, talk, said),
        talk[0] == Event::<B, C>::UploadOffset(name, id, Ok(offset)),
        asked.header("content-range"@) is Some,
        chunk_range(asked.header("content-range"@)->0) == Ok::<ByteRange, Option<Seq<char>>>(range),
        chunk_length(asked) == Some((range.end - range.start + 1) as nat),
        range.start != offset,
    ensures
        talk.len() == 1,
        said is Err,
        (said->Err_0).status == 416,
        (said->Err_0).body == Some(ErrorCode::BlobUploadInvalid),
{
}

/// A request that does not carry both a range and a length is a stream: it is
/// never refused for its range, at any offset.
pub proof fn a_stream_needs_no_range(asked: Asked, offset: u64)
    requires
        asked.header("content-range"@) is None || chunk_length(asked) is None,
    ensures
        chunk_claim(asked, offset) == Ok::<Option<u64>, Failure>(None),
{
}

} // verus!
