//! `/v2/<name>/manifests/<tag-or-digest>`.
//!
//! `Accept` does not gate the response: the stored bytes are served regardless.
//! `Content-Type` is whatever was pushed, without parameters. `HEAD` is its own
//! path, and never reads a body. A reference containing `:` is a digest even if it
//! does not parse.
use vstd::prelude::*;

use crate::digest::{digest_text_is_plain, digest_text_round_trips, Digest};
use crate::server::app::manifest_path;
use crate::server::config::ServerConfig;
use crate::server::error::{failure_about, ApiError, ErrorCode, Failure};
use crate::server::handlers::common::{
    bare_media_type, continues, lemma_nothing_yet, lemma_one_more, media_type_of, ops_error,
    ops_failure, since,
};
use crate::server::http::{
    answer, bodiless, empty_with_length, header, header_text, header_value, is_header_text,
    length_header, method_not_allowed, not_allowed, Asked, BodyView, Ctx, Handled, Method, Reply, ReplyBody, Said,
    MEDIA_TYPE_MANIFEST,
};
use crate::server::query::{all, first_value, values_of};
use crate::server::reference::{
    is_tag, parse_reference, reference_request, refusal, valid_tag, Reference, ReferenceError,
    Referred,
};
use crate::server::seam::{Event, ManifestPut, ManifestStat, Registry};
use crate::text::{
    chars_eq, chars_of, decimal, decimal_text, is_space, is_text, lemma_first_index_bounds,
    lemma_nothing_to_trim, lemma_split_at, parse_u64, parsed_unsigned, split, split_chars, trim, trimmed,
};

verus! {

// --- refusals ------------------------------------------------------------------

/// A malformed digest is a client error whatever the method. A malformed tag is
/// one on a write; on a read it cannot name anything.
pub open spec fn reference_failure(e: (bool, Seq<char>), writing: bool) -> Failure {
    failure_about(
        if e.0 {
            ErrorCode::DigestInvalid
        } else if writing {
            ErrorCode::ManifestInvalid
        } else {
            ErrorCode::ManifestUnknown
        },
        e.1,
    )
}

pub fn reference_error(e: ReferenceError, writing: bool) -> (r: ApiError)
    ensures
        r.deep_view() == reference_failure(refusal(e), writing),
{
    match e {
        ReferenceError::Digest(detail) => ApiError::new(ErrorCode::DigestInvalid).with_detail(
            detail.as_str(),
        ),
        ReferenceError::Tag(detail) => if writing {
            ApiError::new(ErrorCode::ManifestInvalid).with_detail(detail.as_str())
        } else {
            ApiError::new(ErrorCode::ManifestUnknown).with_detail(detail.as_str())
        },
    }
}

/// `413`.
pub open spec fn oversized(limit: usize) -> Failure {
    Failure {
        status: 413,
        message: "manifest exceeds the maximum accepted size"@,
        ..failure_about(
            ErrorCode::ManifestInvalid,
            "limit is "@ + decimal(limit as nat) + " bytes"@,
        )
    }
}

pub fn too_large(limit: usize) -> (r: ApiError)
    ensures
        r.deep_view() == oversized(limit),
{
    let mut detail = "limit is ".to_owned();
    detail.append(decimal_text(limit as u64).as_str());
    detail.append(" bytes");
    ApiError::new(ErrorCode::ManifestInvalid).with_status(413).with_message(
        "manifest exceeds the maximum accepted size",
    ).with_detail(detail.as_str())
}

// --- conditional requests ------------------------------------------------------

/// A text without the quotation marks before it.
pub open spec fn unquoted_front(s: Seq<char>) -> Seq<char>
    decreases s.len(),
{
    if s.len() > 0 && s[0] == '"' {
        unquoted_front(s.drop_first())
    } else {
        s
    }
}

/// A text without the quotation marks behind it.
pub open spec fn unquoted_back(s: Seq<char>) -> Seq<char>
    decreases s.len(),
{
    if s.len() > 0 && s.last() == '"' {
        unquoted_back(s.drop_last())
    } else {
        s
    }
}

/// A text without the quotation marks around it.
pub open spec fn unquoted(s: Seq<char>) -> Seq<char> {
    unquoted_back(unquoted_front(s))
}

/// Whether one value of `If-None-Match` matches an entity tag, quoted or not. A
/// `*` matches any.
pub open spec fn value_matches(value: Seq<char>, etag: Seq<char>) -> bool {
    value == seq!['*'] || value == etag || unquoted(value) == unquoted(etag)
}

/// Whether an `If-None-Match` header matches an entity tag.
pub open spec fn header_matches(sent: Option<Seq<char>>, etag: Seq<char>) -> bool {
    sent matches Some(h) && any_matches(split(h, ','), etag)
}

/// Whether one of some values matches an entity tag.
pub open spec fn any_matches(values: Seq<Seq<char>>, etag: Seq<char>) -> bool {
    exists|i: int| 0 <= i < values.len() && value_matches(trimmed(#[trigger] values[i]), etag)
}

fn unquote(s: &[char]) -> (r: &[char])
    ensures
        r@ == unquoted(s@),
{
    let mut i: usize = 0;
    let n = s.len();
    assert(s@.subrange(0, n as int) =~= s@);
    while i < n && s[i] == '"'
        invariant
            i <= n,
            n == s@.len(),
            unquoted_front(s@) == unquoted_front(s@.subrange(i as int, n as int)),
        decreases n - i,
    {
        assert(s@.subrange(i as int, n as int).drop_first() =~= s@.subrange(i + 1, n as int));
        i = i + 1;
    }
    let front = vstd::slice::slice_subrange(s, i, n);
    let mut j: usize = front.len();
    assert(front@.subrange(0, j as int) =~= front@);
    while j > 0 && front[j - 1] == '"'
        invariant
            j <= front@.len(),
            unquoted_back(front@) == unquoted_back(front@.subrange(0, j as int)),
        decreases j,
    {
        assert(front@.subrange(0, j as int).drop_last() =~= front@.subrange(0, j - 1));
        j = j - 1;
    }
    vstd::slice::slice_subrange(front, 0, j)
}

/// `If-None-Match`, tolerating an unquoted value.
pub fn if_none_match(ctx: &Ctx, etag: &str) -> (r: bool)
    ensures
        r == header_matches(ctx.request.deep_view().header("if-none-match"@), etag@),
{
    let raw = match ctx.request.header("if-none-match") {
        Some(raw) => raw,
        None => return false,
    };
    let tag = chars_of(etag);
    let chars = chars_of(raw);
    let parts = split_chars(chars.as_slice(), ',');
    let mut i: usize = 0;
    while i < parts.len()
        invariant
            i <= parts@.len(),
            parts.deep_view() == split(raw@, ','),
            tag@ == etag@,
            ctx.request.deep_view().header("if-none-match"@) == Some(raw@),
            forall|k: int|
                0 <= k < i ==> !value_matches(trimmed(#[trigger] split(raw@, ',')[k]), etag@),
        decreases parts@.len() - i,
    {
        let value = trim(parts[i].as_slice());
        proof {
            assert(parts.deep_view()[i as int] == parts@[i as int]@);
            reveal_strlit("*");
            assert("*"@ =~= seq!['*']);
        }
        if is_text(value, "*") || is_text(value, etag) || chars_eq(
            unquote(value),
            unquote(tag.as_slice()),
        ) {
            proof {
                assert(any_matches(split(raw@, ','), etag@));
            }
            return true;
        }
        i = i + 1;
    }
    false
}

// --- pulls ---------------------------------------------------------------------

/// The entity tag of a manifest: its digest, quoted.
pub open spec fn etag_of(digest: Digest) -> Seq<char> {
    "\""@ + digest.text() + "\""@
}

fn entity_tag(digest: &Digest) -> (r: String)
    ensures
        r@ == etag_of(*digest),
{
    let mut out = "\"".to_owned();
    out.append(digest.to_text().as_str());
    out.append("\"");
    out
}

/// The answer to a pull.
pub open spec fn pull_said<C>(asked: Asked, stat: ManifestStat, body: Seq<u8>) -> Said<C> {
    let digest = ("docker-content-digest"@, stat.digest.text());
    let tag = ("etag"@, etag_of(stat.digest));
    if header_matches(asked.header("if-none-match"@), etag_of(stat.digest)) {
        bodiless(304, 0, seq![digest, tag])
    } else {
        Said {
            status: 200,
            headers: seq![
                ("content-type"@, header_text(stat.media_type@)),
                length_header(body.len()),
                digest,
                tag,
            ],
            body: BodyView::Bytes(body),
        }
    }
}

pub fn pull_reply<C>(ctx: &Ctx, stat: ManifestStat, body: Vec<u8>) -> (r: Reply<C>)
    ensures
        r.deep_view() == pull_said::<C>(ctx.request.deep_view(), stat, body@),
{
    let tag = entity_tag(&stat.digest);
    let unchanged = if_none_match(ctx, tag.as_str());
    let mut headers: Vec<(String, String)> = Vec::new();
    if unchanged {
        headers.push(header("docker-content-digest", stat.digest.to_text()));
        headers.push(header("etag", tag));
        assert(headers.deep_view() =~= seq![
            ("docker-content-digest"@, stat.digest.text()),
            ("etag"@, etag_of(stat.digest)),
        ]);
        return empty_with_length(304, 0, headers);
    }
    let ghost kind = header_text(stat.media_type@);
    headers.push(header("content-type", header_value(stat.media_type)));
    headers.push(header("content-length", decimal_text(body.len() as u64)));
    headers.push(header("docker-content-digest", stat.digest.to_text()));
    headers.push(header("etag", tag));
    assert(headers.deep_view() =~= seq![
        ("content-type"@, kind),
        length_header(body@.len()),
        ("docker-content-digest"@, stat.digest.text()),
        ("etag"@, etag_of(stat.digest)),
    ]);
    Reply { status: 200, headers, body: ReplyBody::Bytes(body) }
}

pub open spec fn pulls_manifest<B, C>(
    asked: Asked,
    name: Seq<char>,
    reference: Referred,
    talk: Seq<Event<B, C>>,
    said: Result<Said<C>, Failure>,
) -> bool {
    talk.len() == 1 && match talk[0] {
        Event::GetManifest(n, w, r) => {
            &&& n == name
            &&& w == reference
            &&& said == match r {
                Err(e) => Err::<Said<C>, Failure>(ops_failure(e)),
                Ok((stat, body)) => Ok(pull_said(asked, stat, body@)),
            }
        },
        _ => false,
    }
}

fn get<R: Registry>(ctx: &Ctx, registry: &mut R, name: &str, reference: &Reference) -> (r: Handled<
    R::Content,
>)
    ensures
        continues(*old(registry), *final(registry)),
        pulls_manifest(
            ctx.request.deep_view(),
            name@,
            reference.deep_view(),
            since(old(registry).log(), final(registry).log()),
            answer(r),
        ),
{
    let ghost before = *registry;
    let got = registry.get_manifest(name, reference);
    proof {
        lemma_nothing_yet(before);
        lemma_one_more(
            before,
            before,
            *registry,
            Event::GetManifest(name@, reference.deep_view(), got),
        );
    }
    match got {
        Ok((stat, body)) => Ok(pull_reply(ctx, stat, body)),
        Err(e) => Err(ops_error(e)),
    }
}

/// The answer to a `HEAD`.
pub open spec fn head_said<C>(stat: ManifestStat) -> Said<C> {
    bodiless(
        200,
        stat.size as nat,
        seq![
            ("content-type"@, header_text(stat.media_type@)),
            ("docker-content-digest"@, stat.digest.text()),
            ("etag"@, etag_of(stat.digest)),
        ],
    )
}

pub open spec fn heads_manifest<B, C>(
    name: Seq<char>,
    reference: Referred,
    talk: Seq<Event<B, C>>,
    said: Result<Said<C>, Failure>,
) -> bool {
    talk.len() == 1 && match talk[0] {
        Event::StatManifest(n, w, r) => {
            &&& n == name
            &&& w == reference
            &&& said == match r {
                Err(e) => Err::<Said<C>, Failure>(ops_failure(e)),
                Ok(stat) => Ok(head_said(stat)),
            }
        },
        _ => false,
    }
}

fn head<R: Registry>(registry: &mut R, name: &str, reference: &Reference) -> (r: Handled<R::Content>)
    ensures
        continues(*old(registry), *final(registry)),
        heads_manifest(
            name@,
            reference.deep_view(),
            since(old(registry).log(), final(registry).log()),
            answer(r),
        ),
{
    let ghost before = *registry;
    let got = registry.stat_manifest(name, reference);
    proof {
        lemma_nothing_yet(before);
        lemma_one_more(
            before,
            before,
            *registry,
            Event::StatManifest(name@, reference.deep_view(), got),
        );
    }
    match got {
        Ok(stat) => {
            let ghost kind = header_text(stat.media_type@);
            let mut headers: Vec<(String, String)> = Vec::new();
            headers.push(header("content-type", header_value(stat.media_type)));
            headers.push(header("docker-content-digest", stat.digest.to_text()));
            headers.push(header("etag", entity_tag(&stat.digest)));
            assert(headers.deep_view() =~= seq![
                ("content-type"@, kind),
                ("docker-content-digest"@, stat.digest.text()),
                ("etag"@, etag_of(stat.digest)),
            ]);
            Ok(empty_with_length(200, stat.size, headers))
        },
        Err(e) => Err(ops_error(e)),
    }
}

// --- pushes --------------------------------------------------------------------

/// The length that a request declares for its body.
pub open spec fn declared_length(asked: Asked) -> Option<nat> {
    match asked.header("content-length"@) {
        Some(v) => parsed_unsigned(v, usize::MAX as nat),
        None => None,
    }
}

/// The media type that a manifest is pushed as.
pub open spec fn pushed_type(asked: Asked) -> Seq<char> {
    match asked.header("content-type"@) {
        Some(v) => if bare_media_type(v).len() > 0 {
            bare_media_type(v)
        } else {
            MEDIA_TYPE_MANIFEST@
        },
        None => MEDIA_TYPE_MANIFEST@,
    }
}

/// The first text that is no tag.
pub open spec fn first_bad_tag(tags: Seq<Seq<char>>) -> Option<Seq<char>>
    decreases tags.len(),
{
    if tags.len() == 0 {
        None
    } else if !is_tag(tags[0]) {
        Some(tags[0])
    } else {
        first_bad_tag(tags.drop_first())
    }
}

/// The `?tag=` parameters of a push, or the refusal.
pub open spec fn tags_asked(asked: Asked, config: ServerConfig) -> Result<Seq<Seq<char>>, Failure> {
    let raw = values_of(asked.query, "tag"@);
    if raw.len() > config.max_tag_params {
        Err(
            Failure {
                status: 414,
                message: "too many tag parameters"@,
                ..failure_about(
                    ErrorCode::ManifestInvalid,
                    "limit is "@ + decimal(config.max_tag_params as nat),
                )
            },
        )
    } else {
        match first_bad_tag(raw) {
            Some(tag) => Err(
                Failure {
                    message: "invalid tag parameter"@,
                    ..failure_about(ErrorCode::ManifestInvalid, tag)
                },
            ),
            None => Ok(raw),
        }
    }
}

/// `?tag=` parameters, held to the tag grammar.
pub fn tag_params(ctx: &Ctx) -> (r: Result<Vec<String>, ApiError>)
    ensures
        match r {
            Ok(tags) => tags_asked(ctx.request.deep_view(), *ctx.config) == Ok::<
                Seq<Seq<char>>,
                Failure,
            >(tags.deep_view()),
            Err(e) => tags_asked(ctx.request.deep_view(), *ctx.config) == Err::<
                Seq<Seq<char>>,
                Failure,
            >(e.deep_view()),
        },
{
    let ghost asked = ctx.request.deep_view();
    let ghost texts = values_of(asked.query, "tag"@);
    assert(ctx.request.query@.map_values(|p: (String, String)| p.deep_view())
        =~= ctx.request.query.deep_view());
    let raw = all(ctx.request.query.as_slice(), "tag");
    assert(raw@.len() == texts.len()) by {
        assert(raw@.map_values(|s: &str| s@) == texts);
    }
    if raw.len() > ctx.config.max_tag_params {
        let detail = "limit is ".to_owned().concat(
            decimal_text(ctx.config.max_tag_params as u64).as_str(),
        );
        return Err(
            ApiError::new(ErrorCode::ManifestInvalid).with_status(414).with_message(
                "too many tag parameters",
            ).with_detail(detail.as_str()),
        );
    }
    let mut tags: Vec<String> = Vec::new();
    let mut i: usize = 0;
    assert(texts.subrange(0, texts.len() as int) =~= texts);
    while i < raw.len()
        invariant
            i <= raw@.len(),
            raw@.len() == texts.len(),
            raw@.map_values(|s: &str| s@) == texts,
            texts == values_of(asked.query, "tag"@),
            texts.len() <= ctx.config.max_tag_params,
            asked == ctx.request.deep_view(),
            tags.deep_view() =~= texts.subrange(0, i as int),
            first_bad_tag(texts) == first_bad_tag(texts.subrange(i as int, texts.len() as int)),
        decreases raw@.len() - i,
    {
        let tag = raw[i];
        proof {
            assert(raw@.map_values(|s: &str| s@)[i as int] == tag@);
            let rest = texts.subrange(i as int, texts.len() as int);
            assert(rest[0] == tag@);
            assert(rest.drop_first() =~= texts.subrange(i + 1, texts.len() as int));
        }
        if !valid_tag(tag) {
            return Err(
                ApiError::new(ErrorCode::ManifestInvalid).with_message(
                    "invalid tag parameter",
                ).with_detail(tag),
            );
        }
        tags.push(tag.to_owned());
        assert(tags.deep_view() =~= texts.subrange(0, i as int).push(tag@));
        assert(texts.subrange(0, i + 1) =~= texts.subrange(0, i as int).push(tag@));
        i = i + 1;
    }
    assert(texts.subrange(0, i as int) =~= texts);
    Ok(tags)
}

/// One `OCI-Tag` header for each tag.
pub open spec fn tag_headers(tags: Seq<Seq<char>>) -> Seq<(Seq<char>, Seq<char>)> {
    Seq::new(tags.len(), |i: int| ("oci-tag"@, header_text(tags[i])))
}

/// The headers that acknowledge a push: where the manifest is, its digest, its
/// subject if it has one, and the tags it was given. The subject is acknowledged
/// whether or not referrers are served.
pub open spec fn push_headers(name: Seq<char>, put: ManifestPut) -> Seq<(Seq<char>, Seq<char>)> {
    let plain = seq![
        ("location"@, header_text(manifest_path(name, put.digest.text()))),
        ("docker-content-digest"@, put.digest.text()),
    ];
    (match put.subject {
        Some(subject) => plain.push(("oci-subject"@, subject.text())),
        None => plain,
    }) + tag_headers(put.tags.deep_view())
}

/// The acknowledgement of a push.
pub fn push_reply<C>(name: &str, put: ManifestPut) -> (r: Reply<C>)
    ensures
        r.deep_view() == bodiless::<C>(201, 0, push_headers(name@, put)),
{
    let mut location = "/v2/".to_owned();
    location.append(name);
    location.append("/manifests/");
    location.append(put.digest.to_text().as_str());
    let mut headers: Vec<(String, String)> = Vec::new();
    headers.push(header("location", header_value(location)));
    headers.push(header("docker-content-digest", put.digest.to_text()));
    if let Some(subject) = &put.subject {
        headers.push(header("oci-subject", subject.to_text()));
    }
    let ghost tags = put.tags.deep_view();
    let ghost plain = headers.deep_view();
    let mut i: usize = 0;
    assert(tag_headers(tags.subrange(0, 0)) =~= Seq::empty());
    assert(plain + Seq::empty() =~= plain);
    while i < put.tags.len()
        invariant
            i <= put.tags@.len(),
            tags == put.tags.deep_view(),
            headers.deep_view() == plain + tag_headers(tags.subrange(0, i as int)),
        decreases put.tags@.len() - i,
    {
        let tag = put.tags[i].as_str().to_owned();
        let ghost row = ("oci-tag"@, header_text(tags[i as int]));
        let ghost was = tag_headers(tags.subrange(0, i as int));
        assert(tag@ == tags[i as int]);
        headers.push(header("oci-tag", header_value(tag)));
        assert(headers.deep_view() =~= (plain + was).push(row));
        assert(tag_headers(tags.subrange(0, i + 1)) =~= was.push(row));
        i = i + 1;
        assert(headers.deep_view() =~= plain + tag_headers(tags.subrange(0, i as int)));
    }
    proof {
        assert(tags.subrange(0, i as int) =~= tags);
        assert(plain =~= match put.subject {
            Some(subject) => seq![
                ("location"@, header_text(manifest_path(name@, put.digest.text()))),
                ("docker-content-digest"@, put.digest.text()),
            ].push(("oci-subject"@, subject.text())),
            None => seq![
                ("location"@, header_text(manifest_path(name@, put.digest.text()))),
                ("docker-content-digest"@, put.digest.text()),
            ],
        });
    }
    empty_with_length(201, 0, headers)
}

/// Whether a push is handled as it should be. A declared length above the limit is
/// refused before the body is read; a longer body than the limit is refused while
/// it is; and only then are the tags looked at.
pub open spec fn pushes_manifest<B, C>(
    asked: Asked,
    config: ServerConfig,
    name: Seq<char>,
    reference: Referred,
    body: B,
    talk: Seq<Event<B, C>>,
    said: Result<Said<C>, Failure>,
) -> bool {
    let limit = config.max_manifest_bytes;
    if declared_length(asked) matches Some(n) && n > limit {
        talk.len() == 0 && said == Err::<Said<C>, Failure>(oversized(limit))
    } else {
        talk.len() > 0 && match talk[0] {
            Event::ReadWhole(b, l, r) => b == body && l == limit && match r {
                None => talk.len() == 1 && said == Err::<Said<C>, Failure>(oversized(limit)),
                Some(bytes) => match tags_asked(asked, config) {
                    Err(f) => talk.len() == 1 && said == Err::<Said<C>, Failure>(f),
                    Ok(tags) => talk.len() == 2 && match talk[1] {
                        Event::PutManifest(n, w, kind, ts, sent, r) => {
                            &&& n == name
                            &&& w == reference
                            &&& kind == pushed_type(asked)
                            &&& ts == tags
                            &&& sent == bytes@
                            &&& said == match r {
                                Err(e) => Err::<Said<C>, Failure>(ops_failure(e)),
                                Ok(put) => Ok(bodiless(201, 0, push_headers(name, put))),
                            }
                        },
                        _ => false,
                    },
                },
            },
            _ => false,
        }
    }
}

/// The media type of a push.
fn type_of(ctx: &Ctx) -> (r: String)
    ensures
        r@ == pushed_type(ctx.request.deep_view()),
{
    if let Some(raw) = ctx.request.header("content-type") {
        let bare = media_type_of(raw);
        if chars_of(bare.as_str()).len() > 0 {
            return bare;
        }
    }
    MEDIA_TYPE_MANIFEST.to_owned()
}

fn put<R: Registry>(
    ctx: &Ctx,
    registry: &mut R,
    name: &str,
    reference: &Reference,
    body: R::Body,
) -> (r: Handled<R::Content>)
    ensures
        continues(*old(registry), *final(registry)),
        pushes_manifest(
            ctx.request.deep_view(),
            *ctx.config,
            name@,
            reference.deep_view(),
            body,
            since(old(registry).log(), final(registry).log()),
            answer(r),
        ),
{
    let ghost before = *registry;
    proof {
        lemma_nothing_yet(before);
    }
    let limit = ctx.config.max_manifest_bytes;
    if let Some(raw) = ctx.request.header("content-length") {
        let chars = chars_of(raw);
        if let Some(declared) = parse_u64(chars.as_slice()) {
            if declared > limit as u64 && declared <= usize::MAX as u64 {
                return Err(too_large(limit));
            }
        }
    }
    let ghost arriving = body;
    let read = registry.read_whole(body, limit);
    proof {
        lemma_one_more(before, before, *registry, Event::ReadWhole(arriving, limit, read));
    }
    let bytes = match read {
        Some(bytes) => bytes,
        None => return Err(too_large(limit)),
    };
    let content_type = type_of(ctx);
    let tags = match tag_params(ctx) {
        Ok(tags) => tags,
        Err(e) => return Err(e),
    };
    let ghost between = *registry;
    let ghost sent = bytes@;
    let done = registry.put_manifest(name, reference, content_type.as_str(), &tags, bytes);
    proof {
        lemma_one_more(
            before,
            between,
            *registry,
            Event::PutManifest(
                name@,
                reference.deep_view(),
                content_type@,
                tags.deep_view(),
                sent,
                done,
            ),
        );
    }
    match done {
        Ok(put) => Ok(push_reply(name, put)),
        Err(e) => Err(ops_error(e)),
    }
}

// --- deletes -------------------------------------------------------------------

pub open spec fn deletes_manifest<B, C>(
    name: Seq<char>,
    reference: Referred,
    talk: Seq<Event<B, C>>,
    said: Result<Said<C>, Failure>,
) -> bool {
    talk.len() == 1 && match talk[0] {
        Event::DeleteManifest(n, w, r) => {
            &&& n == name
            &&& w == reference
            &&& said == match r {
                Err(e) => Err::<Said<C>, Failure>(ops_failure(e)),
                Ok(_) => Ok(bodiless(202, 0, Seq::empty())),
            }
        },
        _ => false,
    }
}

fn delete<R: Registry>(registry: &mut R, name: &str, reference: &Reference) -> (r: Handled<
    R::Content,
>)
    ensures
        continues(*old(registry), *final(registry)),
        deletes_manifest(
            name@,
            reference.deep_view(),
            since(old(registry).log(), final(registry).log()),
            answer(r),
        ),
{
    let ghost before = *registry;
    let done = registry.delete_manifest(name, reference);
    proof {
        lemma_nothing_yet(before);
        lemma_one_more(
            before,
            before,
            *registry,
            Event::DeleteManifest(name@, reference.deep_view(), done),
        );
    }
    match done {
        Ok(_) => {
            let none: Vec<(String, String)> = Vec::new();
            assert(none.deep_view() =~= Seq::empty());
            Ok(empty_with_length(202, 0, none))
        },
        Err(e) => Err(ops_error(e)),
    }
}

/// Whether a request about a manifest is handled as it should be.
pub open spec fn handles_manifest<B, C>(
    asked: Asked,
    config: ServerConfig,
    name: Seq<char>,
    raw_reference: Seq<char>,
    body: B,
    talk: Seq<Event<B, C>>,
    said: Result<Said<C>, Failure>,
) -> bool {
    match reference_request(raw_reference) {
        Err(e) => talk.len() == 0 && said == Err::<Said<C>, Failure>(
            reference_failure(e, asked.method == Method::Put),
        ),
        Ok(reference) => match asked.method {
            Method::Get => pulls_manifest(asked, name, reference, talk, said),
            Method::Head => heads_manifest(name, reference, talk, said),
            Method::Put => pushes_manifest(asked, config, name, reference, body, talk, said),
            Method::Delete => deletes_manifest(name, reference, talk, said),
            _ => talk.len() == 0 && said == Err::<Said<C>, Failure>(
                not_allowed("GET, HEAD, PUT, DELETE"@),
            ),
        },
    }
}

pub fn handle<R: Registry>(
    ctx: &Ctx,
    registry: &mut R,
    name: &str,
    raw_reference: &str,
    body: R::Body,
) -> (r: Handled<R::Content>)
    ensures
        continues(*old(registry), *final(registry)),
        handles_manifest(
            ctx.request.deep_view(),
            *ctx.config,
            name@,
            raw_reference@,
            body,
            since(old(registry).log(), final(registry).log()),
            answer(r),
        ),
{
    proof {
        lemma_nothing_yet(*old(registry));
    }
    let writing = ctx.request.method == Method::Put;
    let reference = match parse_reference(raw_reference) {
        Ok(reference) => reference,
        Err(e) => return Err(reference_error(e, writing)),
    };
    match ctx.request.method {
        Method::Get => get(ctx, registry, name, &reference),
        Method::Head => head(registry, name, &reference),
        Method::Put => put(ctx, registry, name, &reference, body),
        Method::Delete => delete(registry, name, &reference),
        _ => Err(method_not_allowed("GET, HEAD, PUT, DELETE")),
    }
}

// --- laws ----------------------------------------------------------------------

/// A client that sends a manifest's own entity tag back is told that nothing
/// changed.
pub proof fn a_manifest_matches_its_own_tag(digest: Digest)
    ensures
        header_matches(Some(etag_of(digest)), etag_of(digest)),
{
    reveal_strlit("\"");
    let tag = etag_of(digest);
    assert forall|i: int| 0 <= i < tag.len() implies (#[trigger] tag[i]) != ',' && !is_space(tag[i]) by {
        if 0 < i < tag.len() - 1 {
            assert(tag[i] == digest.text()[i - 1]);
            digest_text_is_plain(digest, i - 1);
        }
    }
    lemma_nothing_to_trim(tag);
    lemma_first_index_bounds(tag, ',');
    let values = split(tag, ',');
    assert(values =~= seq![tag]);
    assert(value_matches(trimmed(values[0]), tag));
    assert(any_matches(values, tag));
}

/// A digest's text holds nothing that the header's grammar takes for itself.
proof fn lemma_tag_is_one_value(d: Digest, quoted: bool)
    ensures
        ({
            let v = if quoted {
                "\""@ + d.text() + "\""@
            } else {
                d.text()
            };
            &&& split(v, ',') == seq![v]
            &&& trimmed(v) == v
            &&& unquoted(v) == d.text()
            &&& v != seq!['*']
        }),
{
    reveal_strlit("\"");
    let t = d.text();
    let v = if quoted {
        "\""@ + t + "\""@
    } else {
        t
    };
    digest_text_is_plain(d, 0);
    digest_text_is_plain(d, t.len() - 1);
    assert forall|i: int| 0 <= i < v.len() implies (#[trigger] v[i]) != ',' && !is_space(v[i]) by {
        if !quoted {
            digest_text_is_plain(d, i);
        } else if 0 < i < v.len() - 1 {
            assert(v[i] == t[i - 1]);
            digest_text_is_plain(d, i - 1);
        }
    }
    lemma_nothing_to_trim(v);
    lemma_first_index_bounds(v, ',');
    assert(split(v, ',') =~= seq![v]);
    if quoted {
        let front = v.drop_first();
        assert(v[0] == '"' && front[0] == t[0]);
        assert(unquoted_front(v) == unquoted_front(front));
        assert(unquoted_front(front) == front);
        assert(front.last() == '"');
        assert(front.drop_last() =~= t);
        assert(unquoted_back(front) == unquoted_back(t));
        assert(t.last() != '"');
    } else {
        assert(t[0] != '"' && t.last() != '"');
    }
}

/// An entity tag names one manifest: what a client sends back, quoted or not, matches
/// the manifest whose digest it is and no other. So a client that holds the old
/// manifest of a tag that was moved is sent the new one.
pub proof fn an_entity_tag_matches_its_own_manifest_alone(a: Digest, b: Digest)
    ensures
        header_matches(Some("\""@ + a.text() + "\""@), etag_of(b)) == (a == b),
        header_matches(Some(a.text()), etag_of(b)) == (a == b),
        etag_of(a) == etag_of(b) ==> a == b,
{
    reveal_strlit("\"");
    digest_text_round_trips(a);
    digest_text_round_trips(b);
    lemma_tag_is_one_value(a, true);
    lemma_tag_is_one_value(a, false);
    lemma_tag_is_one_value(b, true);
    let quoted = "\""@ + a.text() + "\""@;
    assert(etag_of(b) == "\""@ + b.text() + "\""@);
    let values = split(quoted, ',');
    assert(values[0] == quoted);
    assert(value_matches(trimmed(values[0]), etag_of(b)) == (a == b));
    let bare = split(a.text(), ',');
    assert(bare[0] == a.text());
    assert(a.text()[0] != '"') by {
        digest_text_is_plain(a, 0);
    }
    assert(etag_of(b)[0] == '"');
    assert(value_matches(trimmed(bare[0]), etag_of(b)) == (a == b));
}

/// A list of values matches where one of them does, a `*` matches every manifest, and
/// a request without the header matches none.
pub proof fn a_list_matches_where_one_of_its_values_does(x: Seq<char>, y: Seq<char>, d: Digest)
    ensures
        header_matches(Some(x + seq![','] + y), etag_of(d)) == (header_matches(Some(x), etag_of(d))
            || header_matches(Some(y), etag_of(d))),
        header_matches(Some(seq!['*']), etag_of(d)),
        !header_matches(None, etag_of(d)),
{
    let e = etag_of(d);
    let (a, b) = (split(x, ','), split(y, ','));
    lemma_split_at(x, y, ',');
    let all = a + b;
    if any_matches(all, e) {
        let i = choose|i: int| 0 <= i < all.len() && value_matches(trimmed(#[trigger] all[i]), e);
        if i < a.len() {
            assert(value_matches(trimmed(a[i]), e));
        } else {
            assert(value_matches(trimmed(b[i - a.len()]), e));
        }
    }
    if any_matches(a, e) {
        let i = choose|i: int| 0 <= i < a.len() && value_matches(trimmed(#[trigger] a[i]), e);
        assert(value_matches(trimmed(all[i]), e));
    }
    if any_matches(b, e) {
        let i = choose|i: int| 0 <= i < b.len() && value_matches(trimmed(#[trigger] b[i]), e);
        assert(value_matches(trimmed(all[a.len() + i]), e));
    }
    let star = seq!['*'];
    lemma_first_index_bounds(star, ',');
    lemma_nothing_to_trim(star);
    assert(split(star, ',') =~= seq![star]);
    assert(value_matches(trimmed(split(star, ',')[0]), e));
}

/// A pull is answered with the manifest itself, byte for byte, with the length and
/// the type that it has, unless the client says that it holds this very manifest:
/// then it is told that nothing changed and is sent nothing. Either way the answer
/// names the manifest's digest.
pub proof fn a_pull_sends_the_manifest_unless_the_client_has_it<B, C>(
    asked: Asked,
    name: Seq<char>,
    reference: Referred,
    talk: Seq<Event<B, C>>,
    said: Result<Said<C>, Failure>,
    stat: ManifestStat,
    body: Vec<u8>,
    held: Option<Digest>,
)
    requires
        pulls_manifest(asked, name, reference, talk, said),
        talk[0] == Event::<B, C>::GetManifest(name, reference, Ok((stat, body))),
        asked.header("if-none-match"@) == match held {
            Some(d) => Some("\""@ + d.text() + "\""@),
            None => None,
        },
    ensures
        said is Ok,
        first_value((said->Ok_0).headers, "docker-content-digest"@) == Some(stat.digest.text()),
        first_value((said->Ok_0).headers, "etag"@) == Some("\""@ + stat.digest.text() + "\""@),
        held == Some(stat.digest) ==> (said->Ok_0).status == 304 && (said->Ok_0).body is Empty
            && first_value((said->Ok_0).headers, "content-length"@) == Some(decimal(0)),
        held != Some(stat.digest) ==> (said->Ok_0).status == 200 && (said->Ok_0).body
            == BodyView::<C>::Bytes(body@) && first_value(
            (said->Ok_0).headers,
            "content-length"@,
        ) == Some(decimal(body@.len())) && (is_header_text(stat.media_type@) ==> first_value(
            (said->Ok_0).headers,
            "content-type"@,
        ) == Some(stat.media_type@)),
{
    if let Some(d) = held {
        an_entity_tag_matches_its_own_manifest_alone(d, stat.digest);
    }
    reveal_strlit("content-type");
    reveal_strlit("content-length");
    reveal_strlit("docker-content-digest");
    reveal_strlit("etag");
    reveal_with_fuel(first_value, 5);
    let hs = (said->Ok_0).headers;
    assert("content-type"@.len() == 12 && "content-length"@.len() == 14);
    assert("docker-content-digest"@.len() == 21 && "etag"@.len() == 4);
    if hs.len() == 4 {
        let r = hs.drop_first();
        assert(r[0] == hs[1] && r[1] == hs[2] && r[2] == hs[3]);
        let q = r.drop_first();
        assert(q[0] == hs[2] && q[1] == hs[3]);
        assert(q.drop_first()[0] == hs[3]);
    } else {
        assert(hs.len() == 3);
        let r = hs.drop_first();
        assert(r[0] == hs[1] && r[1] == hs[2]);
        assert(r.drop_first()[0] == hs[2]);
    }
}

} // verus!
