//! `/api/v1/`: what the web pages are built on.
//!
//! The cursor is in the body, not a `Link` header. A count may be a floor. Pages
//! are small by default, because a row costs a bounded count per repository.
use vstd::prelude::*;

use crate::digest::Digest;
use crate::server::error::{failure_about, ApiError, ErrorCode, Failure};
use crate::server::handlers::common::{
    continues, lemma_nothing_yet, lemma_one_more, ops_error, ops_failure, reads, since,
};
use crate::server::handlers::referrers::{digest_cursor, parse_cursor};
use crate::server::http::{
    answer, header, method_not_allowed, not_allowed, Asked, BodyView, Ctx, Document, Handled,
    Method, Reply, ReplyBody, Said, Written,
};
use crate::server::pagination::{cursor, last_of};
use crate::server::reference::{
    digest_request, is_tag, parse_digest, valid_tag, Reference, Referred,
};
use crate::server::seam::{
    optional_digest, optional_text, Discovery, Event, History, ManifestInfo, OpsResult, Page,
    RepoDetail, RepoSummary, TagEventInfo, TagInfo,
};
use crate::text::{chars_of, find_char, lemma_first_index_bounds, parse_u64, parsed_unsigned};

verus! {

/// Rows per page when `?n=` is absent.
pub const DEFAULT_PAGE: usize = 25;

/// Ceiling for `?n=`. Clamped rather than rejected, as everywhere else.
pub const MAX_PAGE: usize = 100;

/// One `/api/v1/` operation, with the repository name already split out.
///
/// Each collection is its own top-level resource rather than a path nested under
/// the repository, because a repository name may contain `/`.
#[derive(Debug, Clone, PartialEq, Eq)]
pub enum ApiEndpoint {
    /// `GET /api/v1/repositories`
    Repositories,
    /// `GET /api/v1/repositories/<name>`
    Repository { name: String },
    /// `GET /api/v1/tags/<name>`
    Tags { name: String },
    /// `GET /api/v1/manifests/<name>`
    Manifests { name: String },
    /// `GET /api/v1/manifests/<name>@<reference>`
    Manifest { name: String, reference: String },
    /// `GET /api/v1/tag-history/<name>@<reference>`
    TagHistory { name: String, reference: String },
}

// --- what a request asks -------------------------------------------------------

/// Read-only, deliberately: everything that changes the registry is a `/v2/`
/// operation.
pub fn check_method(ctx: &Ctx) -> (r: Result<(), ApiError>)
    ensures
        if reads(ctx.request.method) {
            r is Ok
        } else {
            r is Err && (r->Err_0).deep_view() == not_allowed("GET, HEAD"@)
        },
{
    let method = ctx.request.method;
    if method != Method::Get && method != Method::Head {
        Err(method_not_allowed("GET, HEAD"))
    } else {
        Ok(())
    }
}

/// A number held between one and the ceiling.
pub open spec fn clamped(n: nat) -> nat {
    if n < 1 {
        1
    } else if n > MAX_PAGE {
        MAX_PAGE as nat
    } else {
        n
    }
}

/// The page that a request asks for, or the refusal.
pub open spec fn page_asked(asked: Asked) -> Result<(nat, Option<Seq<char>>), Failure> {
    match asked.param("n"@) {
        None => Ok((DEFAULT_PAGE as nat, cursor(asked.query))),
        Some(raw) => match parsed_unsigned(raw, usize::MAX as nat) {
            None => Err(failure_about(ErrorCode::PaginationNumberInvalid, "n="@ + raw)),
            Some(n) => Ok((clamped(n), cursor(asked.query))),
        },
    }
}

/// `?n=` and `?last=`, with these pages' own bounds.
pub fn page_params(ctx: &Ctx) -> (r: Result<(usize, Option<String>), ApiError>)
    ensures
        match r {
            Ok((limit, last)) => page_asked(ctx.request.deep_view()) == Ok::<
                (nat, Option<Seq<char>>),
                Failure,
            >((limit as nat, last.deep_view())),
            Err(e) => page_asked(ctx.request.deep_view()) == Err::<
                (nat, Option<Seq<char>>),
                Failure,
            >(e.deep_view()),
        },
{
    assert(ctx.request.query@.map_values(|p: (String, String)| p.deep_view())
        =~= ctx.request.query.deep_view());
    let limit: usize = match ctx.request.param("n") {
        None => DEFAULT_PAGE,
        Some(raw) => {
            let chars = chars_of(raw);
            match parse_u64(chars.as_slice()) {
                Some(n) if n <= usize::MAX as u64 => if n < 1 {
                    1
                } else if n > MAX_PAGE as u64 {
                    MAX_PAGE
                } else {
                    n as usize
                },
                _ => {
                    return Err(
                        ApiError::new(ErrorCode::PaginationNumberInvalid).with_detail(
                            "n=".to_owned().concat(raw).as_str(),
                        ),
                    );
                },
            }
        },
    };
    Ok((limit, last_of(ctx.request.query.as_slice())))
}

/// Every page has at least one row and at most as many as the ceiling.
pub proof fn pages_are_small(asked: Asked)
    requires
        page_asked(asked) is Ok,
    ensures
        1 <= (page_asked(asked)->Ok_0).0 <= MAX_PAGE,
{
}

/// What a reference in a path is: a `:` means digest. A malformed tag cannot name
/// anything.
pub open spec fn reference_asked(raw: Seq<char>) -> Result<Referred, Failure> {
    if raw.contains(':') {
        match digest_request(raw) {
            Ok(d) => Ok(Referred::Digest(d)),
            Err(words) => Err(failure_about(ErrorCode::DigestInvalid, words)),
        }
    } else if is_tag(raw) {
        Ok(Referred::Tag(raw))
    } else {
        Err(failure_about(ErrorCode::ManifestUnknown, raw))
    }
}

pub fn parse_reference(raw: &str) -> (r: Result<Reference, ApiError>)
    ensures
        match r {
            Ok(reference) => reference_asked(raw@) == Ok::<Referred, Failure>(
                reference.deep_view(),
            ),
            Err(e) => reference_asked(raw@) == Err::<Referred, Failure>(e.deep_view()),
        },
{
    let chars = chars_of(raw);
    proof {
        lemma_first_index_bounds(raw@, ':');
    }
    if find_char(chars.as_slice(), ':') < chars.len() {
        return match parse_digest(raw) {
            Ok(d) => Ok(Reference::Digest(d)),
            Err(e) => Err(ApiError::new(ErrorCode::DigestInvalid).with_detail(e.0.as_str())),
        };
    }
    if !valid_tag(raw) {
        return Err(ApiError::new(ErrorCode::ManifestUnknown).with_detail(raw));
    }
    Ok(Reference::Tag(raw.to_owned()))
}

/// The prefix that a repository search asks for; everything begins with nothing.
pub open spec fn prefix_asked(asked: Asked) -> Seq<char> {
    match asked.param("q"@) {
        Some(q) => q,
        None => Seq::empty(),
    }
}

/// The prefix of a repository search: a name *prefix*, not a substring.
pub fn search_prefix(ctx: &Ctx) -> (r: String)
    ensures
        r@ == prefix_asked(ctx.request.deep_view()),
{
    match ctx.request.param("q") {
        Some(q) => q.to_owned(),
        None => {
            let none = String::new();
            assert(none@ =~= Seq::empty());
            none
        },
    }
}

/// The page of manifests that a request asks for, or the refusal: its cursor is a
/// digest.
pub open spec fn manifests_asked(asked: Asked) -> Result<(nat, Option<Digest>), Failure> {
    match page_asked(asked) {
        Err(f) => Err(f),
        Ok((limit, last)) => match digest_cursor(last) {
            Err(f) => Err(f),
            Ok(d) => Ok((limit, d)),
        },
    }
}

pub fn manifests_params(ctx: &Ctx) -> (r: Result<(usize, Option<Digest>), ApiError>)
    ensures
        match r {
            Ok((limit, last)) => manifests_asked(ctx.request.deep_view()) == Ok::<
                (nat, Option<Digest>),
                Failure,
            >((limit as nat, last)),
            Err(e) => manifests_asked(ctx.request.deep_view()) == Err::<
                (nat, Option<Digest>),
                Failure,
            >(e.deep_view()),
        },
{
    match page_params(ctx) {
        Err(e) => Err(e),
        Ok((limit, last)) => match parse_cursor(&last) {
            Err(e) => Err(e),
            Ok(d) => Ok((limit, d)),
        },
    }
}

/// The instant that a history is asked for before, or the refusal.
pub open spec fn before_asked(asked: Asked) -> Result<Option<nat>, Failure> {
    match asked.param("before"@) {
        None => Ok(None),
        Some(raw) => match parsed_unsigned(raw, u64::MAX as nat) {
            Some(n) => Ok(Some(n)),
            None => Err(
                Failure {
                    message: "invalid before"@,
                    ..failure_about(ErrorCode::PaginationNumberInvalid, "before="@ + raw)
                },
            ),
        },
    }
}

/// `?before=` is a filter in its own right, and with `?last=` it is the exact place
/// where an earlier page stopped.
pub fn before_param(ctx: &Ctx) -> (r: Result<Option<u64>, ApiError>)
    ensures
        match r {
            Ok(Some(n)) => before_asked(ctx.request.deep_view()) == Ok::<Option<nat>, Failure>(
                Some(n as nat),
            ),
            Ok(None) => before_asked(ctx.request.deep_view()) == Ok::<Option<nat>, Failure>(None),
            Err(e) => before_asked(ctx.request.deep_view()) == Err::<Option<nat>, Failure>(
                e.deep_view(),
            ),
        },
{
    match ctx.request.param("before") {
        None => Ok(None),
        Some(raw) => {
            let chars = chars_of(raw);
            match parse_u64(chars.as_slice()) {
                Some(n) => Ok(Some(n)),
                None => Err(
                    ApiError::new(ErrorCode::PaginationNumberInvalid).with_message(
                        "invalid before",
                    ).with_detail("before=".to_owned().concat(raw).as_str()),
                ),
            }
        },
    }
}

/// What a history request asks: the reference, the page and the instant; or the
/// refusal, the page's first.
pub open spec fn history_asked(asked: Asked, raw: Seq<char>) -> Result<
    (Referred, nat, Option<Seq<char>>, Option<nat>),
    Failure,
> {
    match page_asked(asked) {
        Err(f) => Err(f),
        Ok((limit, last)) => match reference_asked(raw) {
            Err(f) => Err(f),
            Ok(reference) => match before_asked(asked) {
                Err(f) => Err(f),
                Ok(before) => Ok((reference, limit, last, before)),
            },
        },
    }
}

/// What a history request asks.
#[derive(Debug)]
pub struct HistoryParams {
    pub reference: Reference,
    pub limit: usize,
    pub last: Option<String>,
    pub before: Option<u64>,
}

impl DeepView for HistoryParams {
    type V = (Referred, nat, Option<Seq<char>>, Option<nat>);

    open spec fn deep_view(&self) -> (Referred, nat, Option<Seq<char>>, Option<nat>) {
        (
            self.reference.deep_view(),
            self.limit as nat,
            self.last.deep_view(),
            whole(self.before),
        )
    }
}

pub fn history_params(ctx: &Ctx, raw: &str) -> (r: Result<HistoryParams, ApiError>)
    ensures
        match r {
            Ok(p) => history_asked(ctx.request.deep_view(), raw@) == Ok::<
                (Referred, nat, Option<Seq<char>>, Option<nat>),
                Failure,
            >(p.deep_view()),
            Err(e) => history_asked(ctx.request.deep_view(), raw@) == Err::<
                (Referred, nat, Option<Seq<char>>, Option<nat>),
                Failure,
            >(e.deep_view()),
        },
{
    let (limit, last) = match page_params(ctx) {
        Ok(page) => page,
        Err(e) => return Err(e),
    };
    let reference = match parse_reference(raw) {
        Ok(reference) => reference,
        Err(e) => return Err(e),
    };
    match before_param(ctx) {
        Ok(before) => Ok(HistoryParams { reference, limit, last, before }),
        Err(e) => Err(e),
    }
}

// --- what it is answered -------------------------------------------------------

/// An answer in JSON that nobody keeps: it is true until the next push lands.
pub open spec fn json_said<C>(asked: Asked, document: Written) -> Said<C> {
    Said {
        status: 200,
        headers: seq![("content-type"@, "application/json"@), ("cache-control"@, "no-store"@)],
        body: BodyView::Json { document, quiet: asked.method == Method::Head },
    }
}

fn json<C>(ctx: &Ctx, document: Document) -> (r: Reply<C>)
    ensures
        r.deep_view() == json_said::<C>(ctx.request.deep_view(), document.deep_view()),
{
    let mut headers: Vec<(String, String)> = Vec::new();
    headers.push(header("content-type", "application/json".to_owned()));
    headers.push(header("cache-control", "no-store".to_owned()));
    assert(headers.deep_view() =~= seq![
        ("content-type"@, "application/json"@),
        ("cache-control"@, "no-store"@),
    ]);
    Reply {
        status: 200,
        headers,
        body: ReplyBody::Json { document, quiet: ctx.request.method == Method::Head },
    }
}

/// Where a list goes on: at its last row, if there is one and something follows.
pub open spec fn next_after(names: Seq<Seq<char>>, more: bool) -> Option<Seq<char>> {
    if more && names.len() > 0 {
        Some(names.last())
    } else {
        None
    }
}

pub open spec fn repositories_answer<C>(asked: Asked, got: OpsResult<Page<RepoSummary>>) -> Result<
    Said<C>,
    Failure,
> {
    match got {
        Err(e) => Err(ops_failure(e)),
        Ok(page) => Ok(
            json_said(
                asked,
                Written::Repositories {
                    repositories: page.items@,
                    next: next_after(
                        Seq::new(page.items@.len(), |i: int| page.items@[i].name@),
                        page.more,
                    ),
                },
            ),
        ),
    }
}

pub fn repositories<C>(ctx: &Ctx, got: OpsResult<Page<RepoSummary>>) -> (r: Handled<C>)
    ensures
        answer(r) == repositories_answer::<C>(ctx.request.deep_view(), got),
{
    match got {
        Err(e) => Err(ops_error(e)),
        Ok(page) => {
            let n = page.items.len();
            let next = if page.more && n > 0 {
                Some(page.items[n - 1].name.as_str().to_owned())
            } else {
                None
            };
            Ok(json(ctx, Document::Repositories { repositories: page.items, next }))
        },
    }
}

pub open spec fn repository_answer<C>(asked: Asked, got: OpsResult<RepoDetail>) -> Result<
    Said<C>,
    Failure,
> {
    match got {
        Err(e) => Err(ops_failure(e)),
        Ok(detail) => Ok(json_said(asked, Written::Repository(detail))),
    }
}

pub fn repository<C>(ctx: &Ctx, got: OpsResult<RepoDetail>) -> (r: Handled<C>)
    ensures
        answer(r) == repository_answer::<C>(ctx.request.deep_view(), got),
{
    match got {
        Err(e) => Err(ops_error(e)),
        Ok(detail) => Ok(json(ctx, Document::Repository(detail))),
    }
}

pub open spec fn tags_answer<C>(asked: Asked, got: OpsResult<Page<TagInfo>>) -> Result<
    Said<C>,
    Failure,
> {
    match got {
        Err(e) => Err(ops_failure(e)),
        Ok(page) => Ok(
            json_said(
                asked,
                Written::TagRows {
                    tags: page.items@,
                    next: next_after(
                        Seq::new(page.items@.len(), |i: int| page.items@[i].name@),
                        page.more,
                    ),
                },
            ),
        ),
    }
}

pub fn tags<C>(ctx: &Ctx, got: OpsResult<Page<TagInfo>>) -> (r: Handled<C>)
    ensures
        answer(r) == tags_answer::<C>(ctx.request.deep_view(), got),
{
    match got {
        Err(e) => Err(ops_error(e)),
        Ok(page) => {
            let n = page.items.len();
            let next = if page.more && n > 0 {
                Some(page.items[n - 1].name.as_str().to_owned())
            } else {
                None
            };
            Ok(json(ctx, Document::TagRows { tags: page.items, next }))
        },
    }
}

pub open spec fn manifests_answer<C>(asked: Asked, got: OpsResult<Page<ManifestInfo>>) -> Result<
    Said<C>,
    Failure,
> {
    match got {
        Err(e) => Err(ops_failure(e)),
        Ok(page) => Ok(
            json_said(
                asked,
                Written::ManifestRows {
                    manifests: page.items@,
                    next: next_after(
                        Seq::new(page.items@.len(), |i: int| page.items@[i].digest.text()),
                        page.more,
                    ),
                },
            ),
        ),
    }
}

pub fn manifests<C>(ctx: &Ctx, got: OpsResult<Page<ManifestInfo>>) -> (r: Handled<C>)
    ensures
        answer(r) == manifests_answer::<C>(ctx.request.deep_view(), got),
{
    match got {
        Err(e) => Err(ops_error(e)),
        Ok(page) => {
            let n = page.items.len();
            let next = if page.more && n > 0 {
                Some(page.items[n - 1].digest.to_text())
            } else {
                None
            };
            Ok(json(ctx, Document::ManifestRows { manifests: page.items, next }))
        },
    }
}

pub open spec fn manifest_answer<C>(asked: Asked, got: OpsResult<ManifestInfo>) -> Result<
    Said<C>,
    Failure,
> {
    match got {
        Err(e) => Err(ops_failure(e)),
        Ok(info) => Ok(json_said(asked, Written::Manifest(info))),
    }
}

pub fn manifest<C>(ctx: &Ctx, got: OpsResult<ManifestInfo>) -> (r: Handled<C>)
    ensures
        answer(r) == manifest_answer::<C>(ctx.request.deep_view(), got),
{
    match got {
        Err(e) => Err(ops_error(e)),
        Ok(info) => Ok(json(ctx, Document::Manifest(info))),
    }
}

pub open spec fn history_answer<C>(
    asked: Asked,
    got: OpsResult<History>,
) -> Result<Said<C>, Failure> {
    match got {
        Err(e) => Err(ops_failure(e)),
        Ok((events, next)) => Ok(
            json_said(asked, Written::TagHistory { events: events@, next }),
        ),
    }
}

pub fn tag_history<C>(ctx: &Ctx, got: OpsResult<History>) -> (r: Handled<C>)
    ensures
        answer(r) == history_answer::<C>(ctx.request.deep_view(), got),
{
    match got {
        Err(e) => Err(ops_error(e)),
        Ok((events, next)) => Ok(json(ctx, Document::TagHistory { events, next })),
    }
}

// --- from one to the other -----------------------------------------------------

/// A refusal before the registry is asked anything.
pub open spec fn refuses<B, C>(
    f: Failure,
    talk: Seq<Event<B, C>>,
    said: Result<Said<C>, Failure>,
) -> bool {
    talk.len() == 0 && said == Err::<Said<C>, Failure>(f)
}

/// Whether a request asks the registry for what its endpoint shows, and makes the
/// right answer of what it says.
pub open spec fn handles_api<B, C>(
    asked: Asked,
    endpoint: ApiEndpoint,
    talk: Seq<Event<B, C>>,
    said: Result<Said<C>, Failure>,
) -> bool {
    if !reads(asked.method) {
        refuses(not_allowed("GET, HEAD"@), talk, said)
    } else {
        match endpoint {
            ApiEndpoint::Repositories => match page_asked(asked) {
                Err(f) => refuses(f, talk, said),
                Ok((n, after)) => talk.len() == 1 && (talk[0] matches Event::RepositorySummaries(
                    prefix,
                    last,
                    limit,
                    got,
                ) && prefix == prefix_asked(asked) && last == after && limit == n && said
                    == repositories_answer::<C>(asked, got)),
            },
            ApiEndpoint::Repository { name } => talk.len() == 1 && (
            talk[0] matches Event::RepositoryDetail(repo, got) && repo == name@ && said
                == repository_answer::<C>(asked, got)),
            ApiEndpoint::Tags { name } => match page_asked(asked) {
                Err(f) => refuses(f, talk, said),
                Ok((n, after)) => talk.len() == 1 && (talk[0] matches Event::TagDetails(
                    repo,
                    last,
                    limit,
                    got,
                ) && repo == name@ && last == after && limit == n && said == tags_answer::<C>(
                    asked,
                    got,
                )),
            },
            ApiEndpoint::Manifests { name } => match manifests_asked(asked) {
                Err(f) => refuses(f, talk, said),
                Ok((n, after)) => talk.len() == 1 && (talk[0] matches Event::ManifestDetails(
                    repo,
                    last,
                    limit,
                    got,
                ) && repo == name@ && last == after && limit == n && said
                    == manifests_answer::<C>(asked, got)),
            },
            ApiEndpoint::Manifest { name, reference } => match reference_asked(reference@) {
                Err(f) => refuses(f, talk, said),
                Ok(what) => talk.len() == 1 && (talk[0] matches Event::ManifestDetail(
                    repo,
                    which,
                    got,
                ) && repo == name@ && which == what && said == manifest_answer::<C>(asked, got)),
            },
            ApiEndpoint::TagHistory { name, reference } => match history_asked(asked, reference@) {
                Err(f) => refuses(f, talk, said),
                Ok((what, n, after, instant)) => talk.len() == 1 && (
                talk[0] matches Event::TagHistory(repo, which, before, last, limit, got) && repo
                    == name@ && which == what && whole(before) == instant && last == after && limit
                    == n && said == history_answer::<C>(asked, got)),
            },
        }
    }
}

/// An instant as a number.
pub open spec fn whole(n: Option<u64>) -> Option<nat> {
    match n {
        Some(n) => Some(n as nat),
        None => None,
    }
}

/// Answer a `/api/v1/` request.
pub fn handle<R: Discovery>(ctx: &Ctx, registry: &mut R, endpoint: ApiEndpoint) -> (r: Handled<
    R::Content,
>)
    ensures
        continues(*old(registry), *final(registry)),
        handles_api(
            ctx.request.deep_view(),
            endpoint,
            since(old(registry).log(), final(registry).log()),
            answer(r),
        ),
{
    let ghost start = *registry;
    proof {
        lemma_nothing_yet(start);
    }
    if let Err(e) = check_method(ctx) {
        return Err(e);
    }
    match endpoint {
        ApiEndpoint::Repositories => {
            let (limit, last) = match page_params(ctx) {
                Ok(page) => page,
                Err(e) => return Err(e),
            };
            let prefix = search_prefix(ctx);
            let after = borrowed(&last);
            let got = registry.repository_summaries(prefix.as_str(), after, limit);
            proof {
                lemma_one_more(
                    start,
                    start,
                    *registry,
                    Event::RepositorySummaries(prefix@, optional_text(after), limit, got),
                );
            }
            repositories(ctx, got)
        },
        ApiEndpoint::Repository { name } => {
            let got = registry.repository_detail(name.as_str());
            proof {
                lemma_one_more(start, start, *registry, Event::RepositoryDetail(name@, got));
            }
            repository(ctx, got)
        },
        ApiEndpoint::Tags { name } => {
            let (limit, last) = match page_params(ctx) {
                Ok(page) => page,
                Err(e) => return Err(e),
            };
            let after = borrowed(&last);
            let got = registry.tag_details(name.as_str(), after, limit);
            proof {
                lemma_one_more(
                    start,
                    start,
                    *registry,
                    Event::TagDetails(name@, optional_text(after), limit, got),
                );
            }
            tags(ctx, got)
        },
        ApiEndpoint::Manifests { name } => {
            let (limit, last) = match manifests_params(ctx) {
                Ok(page) => page,
                Err(e) => return Err(e),
            };
            let after = match &last {
                Some(d) => Some(d),
                None => None,
            };
            let got = registry.manifest_details(name.as_str(), after, limit);
            proof {
                lemma_one_more(
                    start,
                    start,
                    *registry,
                    Event::ManifestDetails(name@, optional_digest(after), limit, got),
                );
            }
            manifests(ctx, got)
        },
        ApiEndpoint::Manifest { name, reference } => {
            let which = match parse_reference(reference.as_str()) {
                Ok(which) => which,
                Err(e) => return Err(e),
            };
            let got = registry.manifest_detail(name.as_str(), &which);
            proof {
                lemma_one_more(
                    start,
                    start,
                    *registry,
                    Event::ManifestDetail(name@, which.deep_view(), got),
                );
            }
            manifest(ctx, got)
        },
        ApiEndpoint::TagHistory { name, reference } => {
            let params = match history_params(ctx, reference.as_str()) {
                Ok(params) => params,
                Err(e) => return Err(e),
            };
            let after = borrowed(&params.last);
            let got = registry.tag_history(
                name.as_str(),
                &params.reference,
                params.before,
                after,
                params.limit,
            );
            proof {
                lemma_one_more(
                    start,
                    start,
                    *registry,
                    Event::TagHistory(
                        name@,
                        params.reference.deep_view(),
                        params.before,
                        optional_text(after),
                        params.limit,
                        got,
                    ),
                );
            }
            tag_history(ctx, got)
        },
    }
}

/// An optional text, borrowed.
fn borrowed(s: &Option<String>) -> (r: Option<&str>)
    ensures
        optional_text(r) == s.deep_view(),
{
    match s {
        Some(s) => Some(s.as_str()),
        None => None,
    }
}

/// A request that does not read is refused before the registry is asked anything.
pub proof fn only_readers_are_answered<B, C>(
    asked: Asked,
    endpoint: ApiEndpoint,
    talk: Seq<Event<B, C>>,
    said: Result<Said<C>, Failure>,
)
    requires
        handles_api(asked, endpoint, talk, said),
        !reads(asked.method),
    ensures
        talk.len() == 0,
        said == Err::<Said<C>, Failure>(not_allowed("GET, HEAD"@)),
{
}

impl TagEventInfo {
    /// The word for what happened.
    pub fn event(&self) -> (r: &'static str)
        ensures
            r@ == if self.deleted {
                "deleted"@
            } else {
                "created"@
            },
    {
        if self.deleted {
            "deleted"
        } else {
            "created"
        }
    }
}

} // verus!
