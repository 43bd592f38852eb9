//! From a `/v2/` path to the handler of its endpoint.
use vstd::prelude::*;

use crate::server::app::{route, routed, Endpoint, RouteError, Target};
use crate::server::config::ServerConfig;
use crate::server::error::{failure_about, ApiError, ErrorCode, Failure};
use crate::server::handlers::base::{self, base_answer};
use crate::server::handlers::blobs::{self, handles_blob};
use crate::server::handlers::catalog::{self, lists_repositories};
use crate::server::handlers::common::{continues, lemma_nothing_yet, since};
use crate::server::handlers::manifests::{self, handles_manifest};
use crate::server::handlers::referrers::{self, lists_referrers};
use crate::server::handlers::tags::{self, lists_tags};
use crate::server::handlers::uploads::{self, creates, handles_session};
use crate::server::http::{answer, Asked, Ctx, Handled, Said};
use crate::server::ids::{is_session_id, new_session_id};
use crate::server::seam::{Event, Registry};

verus! {

/// Whether a request is handled as its target requires.
pub open spec fn handles<B, C>(
    asked: Asked,
    config: ServerConfig,
    target: Target,
    id: Seq<char>,
    body: B,
    talk: Seq<Event<B, C>>,
    said: Result<Said<C>, Failure>,
) -> bool {
    match target {
        Target::Base => talk.len() == 0 && said == base_answer::<C>(asked.method),
        Target::Catalog => lists_repositories(asked, config, talk, said),
        Target::TagList { name } => lists_tags(asked, config, name, talk, said),
        Target::Manifest { name, reference } => handles_manifest(
            asked,
            config,
            name,
            reference,
            body,
            talk,
            said,
        ),
        Target::Blob { name, digest } => handles_blob(asked, name, digest, talk, said),
        Target::Uploads { name } => creates(asked, config, name, id, body, talk, said),
        Target::Upload { name, id } => handles_session(asked, config, name, id, body, talk, said),
        Target::Referrers { name, digest } => lists_referrers(
            asked,
            config,
            name,
            digest,
            talk,
            said,
        ),
        Target::InvalidName(name) => talk.len() == 0 && said == Err::<Said<C>, Failure>(
            failure_about(ErrorCode::NameInvalid, name),
        ),
        Target::NoMatch => talk.len() == 0 && said == Err::<Said<C>, Failure>(
            Failure {
                message: "unknown repository or endpoint"@,
                ..failure_about(ErrorCode::NameUnknown, asked.path)
            },
        ),
    }
}

/// Hand a request to the handler of its endpoint. `id` is the identifier that a
/// new upload session would get.
pub fn handle<R: Registry>(
    ctx: &Ctx,
    registry: &mut R,
    endpoint: Endpoint,
    id: &str,
    body: R::Body,
) -> (r: Handled<R::Content>)
    ensures
        continues(*old(registry), *final(registry)),
        handles(
            ctx.request.deep_view(),
            *ctx.config,
            endpoint.deep_view(),
            id@,
            body,
            since(old(registry).log(), final(registry).log()),
            answer(r),
        ),
{
    proof {
        lemma_nothing_yet(*old(registry));
    }
    match endpoint {
        Endpoint::Base => base::handle(ctx),
        Endpoint::Catalog => catalog::handle(ctx, registry),
        Endpoint::TagList { name } => tags::handle(ctx, registry, name.as_str()),
        Endpoint::Manifest { name, reference } => manifests::handle(
            ctx,
            registry,
            name.as_str(),
            reference.as_str(),
            body,
        ),
        Endpoint::Blob { name, digest } => blobs::handle(
            ctx,
            registry,
            name.as_str(),
            digest.as_str(),
        ),
        Endpoint::Uploads { name } => uploads::create(ctx, registry, name.as_str(), id, body),
        Endpoint::Upload { name, id } => uploads::session(
            ctx,
            registry,
            name.as_str(),
            id.as_str(),
            body,
        ),
        Endpoint::Referrers { name, digest } => referrers::handle(
            ctx,
            registry,
            name.as_str(),
            digest.as_str(),
        ),
    }
}

/// Answer a `/v2/` request.
///
/// A path that matches no endpoint at all is answered in the shape of every other
/// error, which is more useful than a bare `404`.
pub fn dispatch<R: Registry>(ctx: &Ctx, registry: &mut R, id: &str, body: R::Body) -> (r: Handled<
    R::Content,
>)
    ensures
        continues(*old(registry), *final(registry)),
        handles(
            ctx.request.deep_view(),
            *ctx.config,
            routed(ctx.request.path@),
            id@,
            body,
            since(old(registry).log(), final(registry).log()),
            answer(r),
        ),
{
    proof {
        lemma_nothing_yet(*old(registry));
    }
    match route(ctx.request.path.as_str()) {
        Ok(endpoint) => handle(ctx, registry, endpoint, id, body),
        Err(RouteError::InvalidName(name)) => Err(
            ApiError::new(ErrorCode::NameInvalid).with_detail(name.as_str()),
        ),
        Err(RouteError::NoMatch) => Err(
            ApiError::new(ErrorCode::NameUnknown).with_message(
                "unknown repository or endpoint",
            ).with_detail(ctx.request.path.as_str()),
        ),
    }
}

/// Answer a `/v2/` request, with a fresh identifier for the session that it may
/// open.
pub fn serve<R: Registry>(ctx: &Ctx, registry: &mut R, body: R::Body) -> (r: Handled<R::Content>)
    ensures
        continues(*old(registry), *final(registry)),
        exists|id: Seq<char>| #[trigger]
            is_session_id(id) && handles(
                ctx.request.deep_view(),
                *ctx.config,
                routed(ctx.request.path@),
                id,
                body,
                since(old(registry).log(), final(registry).log()),
                answer(r),
            ),
{
    let id = new_session_id();
    dispatch(ctx, registry, id.as_str(), body)
}

/// What anything outside the known prefixes is answered with.
pub open spec fn not_found(path: Seq<char>) -> Failure {
    Failure { message: "not found"@, ..failure_about(ErrorCode::NameUnknown, path) }
}

pub fn fallback(path: &str) -> (r: ApiError)
    ensures
        r.deep_view() == not_found(path@),
{
    ApiError::new(ErrorCode::NameUnknown).with_message("not found").with_detail(path)
}

} // verus!
