//! `GET /v2/<name>/referrers/<digest>`.
//!
//! While the endpoint is off it answers `404`, but a malformed digest is a `400`
//! either way. Once it is on it never answers `404`: an unknown subject is an
//! empty list.
use vstd::prelude::*;
use vstd::utf8::*;

use crate::digest::Digest;
use crate::server::config::ServerConfig;
use crate::server::error::{bare_failure, failure_about, ApiError, ErrorCode, Failure};
use crate::server::handlers::common::{
    continues, lemma_nothing_yet, lemma_one_more, ops_error, ops_failure, reads, since,
};
use crate::server::http::{
    answer, checked_header, header, is_header_text, method_not_allowed, not_allowed, Asked,
    BodyView, Ctx, Document, Handled, Method, Reply, ReplyBody, Said, Written, MEDIA_TYPE_INDEX,
};
use crate::server::pagination::{paging, parse, Paging};
use crate::server::query::{escaped, query_escape};
use crate::server::reference::{digest_request, parse_digest};
use crate::server::seam::{optional_text, Event, Referrers, Registry};
use crate::text::{decimal, decimal_text};

verus! {

/// The text that points at the next page of a subject's referrers. It carries the
/// filter: a link that drops it is a link to another query.
pub open spec fn referrers_link(
    name: Seq<char>,
    subject: Digest,
    artifact_type: Option<Seq<char>>,
    last: Digest,
    n: nat,
) -> Seq<char> {
    let start = "</v2/"@ + name + "/referrers/"@ + subject.text() + "?"@;
    (match artifact_type {
        Some(t) => start + "artifactType="@ + escaped(encode_utf8(t)) + "&"@,
        None => start,
    }) + "last="@ + escaped(encode_utf8(last.text())) + "&n="@ + decimal(n) + ">; rel=\"next\""@
}

fn link<'a>(
    name: &str,
    subject: &Digest,
    artifact_type: Option<&'a str>,
    last: &Digest,
    n: usize,
) -> (r: String)
    ensures
        r@ == referrers_link(name@, *subject, optional_text(artifact_type), *last, n as nat),
{
    let mut out = "</v2/".to_owned();
    out.append(name);
    out.append("/referrers/");
    out.append(subject.to_text().as_str());
    out.append("?");
    if let Some(t) = artifact_type {
        out.append("artifactType=");
        out.append(query_escape(t).as_str());
        out.append("&");
    }
    out.append("last=");
    out.append(query_escape(last.to_text().as_str()).as_str());
    out.append("&n=");
    out.append(decimal_text(n as u64).as_str());
    out.append(">; rel=\"next\"");
    out
}

/// The headers of a referrers listing. The filter is claimed exactly when it was
/// applied, and the link follows the scan, not the number of matches.
pub open spec fn index_headers(
    name: Seq<char>,
    subject: Digest,
    artifact_type: Option<Seq<char>>,
    p: Paging,
    found: Referrers,
) -> Seq<(Seq<char>, Seq<char>)> {
    let plain = seq![("content-type"@, MEDIA_TYPE_INDEX@)];
    let claimed = if found.filter_applied {
        plain.push(("oci-filters-applied"@, "artifactType"@))
    } else {
        plain
    };
    match found.next {
        Some(last) => {
            let text = referrers_link(name, subject, artifact_type, last, p.limit as nat);
            if is_header_text(text) {
                claimed.push(("link"@, text))
            } else {
                claimed
            }
        },
        None => claimed,
    }
}

/// The referrer that a page starts after, or the refusal.
pub open spec fn digest_cursor(last: Option<Seq<char>>) -> Result<Option<Digest>, Failure> {
    match last {
        None => Ok(None),
        Some(text) => match digest_request(text) {
            Ok(d) => Ok(Some(d)),
            Err(words) => Err(
                Failure {
                    message: "invalid cursor"@,
                    ..failure_about(ErrorCode::DigestInvalid, words)
                },
            ),
        },
    }
}

/// A cursor that is a digest, held to the same grammar as one in a path. One that
/// does not parse is refused, and is no silent restart from the top.
pub fn parse_cursor(last: &Option<String>) -> (r: Result<Option<Digest>, ApiError>)
    ensures
        match r {
            Ok(d) => digest_cursor(last.deep_view()) == Ok::<Option<Digest>, Failure>(d),
            Err(e) => digest_cursor(last.deep_view()) == Err::<Option<Digest>, Failure>(
                e.deep_view(),
            ),
        },
{
    match last {
        None => Ok(None),
        Some(text) => match parse_digest(text.as_str()) {
            Ok(d) => Ok(Some(d)),
            Err(e) => Err(
                ApiError::new(ErrorCode::DigestInvalid).with_message("invalid cursor").with_detail(
                    e.0.as_str(),
                ),
            ),
        },
    }
}

/// Whether a referrers listing is handled as it should be.
pub open spec fn lists_referrers<B, C>(
    asked: Asked,
    config: ServerConfig,
    name: Seq<char>,
    raw_digest: Seq<char>,
    talk: Seq<Event<B, C>>,
    said: Result<Said<C>, Failure>,
) -> bool {
    if !reads(asked.method) {
        talk.len() == 0 && said == Err::<Said<C>, Failure>(not_allowed("GET, HEAD"@))
    } else {
        match digest_request(raw_digest) {
            Err(words) => talk.len() == 0 && said == Err::<Said<C>, Failure>(
                failure_about(ErrorCode::DigestInvalid, words),
            ),
            Ok(subject) => if !config.referrers_enabled {
                talk.len() == 0 && said == Err::<Said<C>, Failure>(bare_failure(404))
            } else {
                match paging(asked.query, config) {
                    Err(f) => talk.len() == 0 && said == Err::<Said<C>, Failure>(f),
                    Ok(p) => match digest_cursor(p.last) {
                        Err(f) => talk.len() == 0 && said == Err::<Said<C>, Failure>(f),
                        Ok(last) => talk.len() == 1 && match talk[0] {
                            Event::Referrers(n, s, t, l, limit, r) => {
                                &&& n == name
                                &&& s == subject
                                &&& t == asked.param("artifactType"@)
                                &&& l == last
                                &&& limit == p.limit
                                &&& said == match r {
                                    Err(e) => Err::<Said<C>, Failure>(ops_failure(e)),
                                    Ok(found) => Ok(
                                        Said {
                                            status: 200,
                                            headers: index_headers(name, subject, t, p, found),
                                            body: BodyView::Json {
                                                document: Written::Index {
                                                    manifests: found.manifests@,
                                                },
                                                quiet: asked.method == Method::Head,
                                            },
                                        },
                                    ),
                                }
                            },
                            _ => false,
                        },
                    },
                }
            },
        }
    }
}

pub fn handle<R: Registry>(ctx: &Ctx, registry: &mut R, name: &str, raw_digest: &str) -> (r: Handled<
    R::Content,
>)
    ensures
        continues(*old(registry), *final(registry)),
        lists_referrers(
            ctx.request.deep_view(),
            *ctx.config,
            name@,
            raw_digest@,
            since(old(registry).log(), final(registry).log()),
            answer(r),
        ),
{
    let ghost before = *registry;
    proof {
        lemma_nothing_yet(before);
    }
    let method = ctx.request.method;
    if method != Method::Get && method != Method::Head {
        return Err(method_not_allowed("GET, HEAD"));
    }
    let subject = match parse_digest(raw_digest) {
        Ok(digest) => digest,
        Err(e) => return Err(
            ApiError::new(ErrorCode::DigestInvalid).with_detail(e.0.as_str()),
        ),
    };
    if !ctx.config.referrers_enabled {
        return Err(ApiError::status_only(404));
    }
    assert(ctx.request.query@.map_values(|p: (String, String)| p.deep_view())
        =~= ctx.request.query.deep_view());
    let params = match parse(ctx.request.query.as_slice(), ctx.config) {
        Ok(params) => params,
        Err(e) => return Err(e),
    };
    let last = match parse_cursor(&params.last) {
        Ok(last) => last,
        Err(e) => return Err(e),
    };
    let artifact_type = ctx.request.param("artifactType");
    let got = registry.referrers(name, &subject, artifact_type, last.as_ref(), params.limit);
    proof {
        lemma_one_more(
            before,
            before,
            *registry,
            Event::Referrers(
                name@,
                subject,
                optional_text(artifact_type),
                last,
                params.limit,
                got,
            ),
        );
    }
    let found = match got {
        Ok(found) => found,
        Err(e) => return Err(ops_error(e)),
    };
    let mut headers: Vec<(String, String)> = Vec::new();
    headers.push(header("content-type", MEDIA_TYPE_INDEX.to_owned()));
    let ghost mut said = seq![("content-type"@, MEDIA_TYPE_INDEX@)];
    assert(headers.deep_view() =~= said);
    if found.filter_applied {
        headers.push(header("oci-filters-applied", "artifactType".to_owned()));
        proof {
            said = said.push(("oci-filters-applied"@, "artifactType"@));
        }
        assert(headers.deep_view() =~= said);
    }
    if let Some(next) = &found.next {
        let text = link(name, &subject, artifact_type, next, params.limit);
        if let Some(text) = checked_header(text) {
            proof {
                said = said.push(("link"@, text@));
            }
            headers.push(header("link", text));
            assert(headers.deep_view() =~= said);
        }
    }
    let document = Document::Index { manifests: found.manifests };
    Ok(
        Reply {
            status: 200,
            headers,
            body: ReplyBody::Json { document, quiet: method == Method::Head },
        },
    )
}

} // verus!
