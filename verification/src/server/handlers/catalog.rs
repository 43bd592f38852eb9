//! `GET /v2/_catalog`: repository names, paged like tags.
use vstd::prelude::*;

use crate::server::config::ServerConfig;
use crate::server::error::Failure;
use crate::server::handlers::common::{
    continues, headers_for, lemma_nothing_yet, lemma_one_more, listing_headers, ops_error,
    ops_failure, reads, since,
};
use crate::server::http::{
    answer, method_not_allowed, not_allowed, Asked, BodyView, Ctx, Document, Handled, Method, Reply,
    ReplyBody, Said, Written,
};
use crate::server::pagination::{paging, parse};
use crate::server::seam::{optional_text, Event, Registry};

verus! {

/// Whether a catalogue listing asks the registry for the right page and makes the
/// right answer of what it says.
pub open spec fn lists_repositories<B, C>(
    asked: Asked,
    config: ServerConfig,
    talk: Seq<Event<B, C>>,
    said: Result<Said<C>, Failure>,
) -> bool {
    if !reads(asked.method) {
        talk.len() == 0 && said == Err::<Said<C>, Failure>(not_allowed("GET, HEAD"@))
    } else {
        match paging(asked.query, config) {
            Err(f) => talk.len() == 0 && said == Err::<Said<C>, Failure>(f),
            Ok(p) => talk.len() == 1 && match talk[0] {
                Event::Repositories(last, limit, r) => {
                    &&& last == p.last
                    &&& limit == p.limit
                    &&& said == match r {
                        Err(e) => Err::<Said<C>, Failure>(ops_failure(e)),
                        Ok(page) => Ok(
                            Said {
                                status: 200,
                                headers: listing_headers(
                                    "/v2/_catalog"@,
                                    p,
                                    page.items.deep_view(),
                                    page.more,
                                ),
                                body: BodyView::Json {
                                    document: Written::Catalog {
                                        repositories: page.items.deep_view(),
                                    },
                                    quiet: asked.method == Method::Head,
                                },
                            },
                        ),
                    }
                },
                _ => false,
            },
        }
    }
}

pub fn handle<R: Registry>(ctx: &Ctx, registry: &mut R) -> (r: Handled<R::Content>)
    ensures
        continues(*old(registry), *final(registry)),
        lists_repositories(
            ctx.request.deep_view(),
            *ctx.config,
            since(old(registry).log(), final(registry).log()),
            answer(r),
        ),
{
    proof {
        lemma_nothing_yet(*old(registry));
    }
    let method = ctx.request.method;
    if method != Method::Get && method != Method::Head {
        return Err(method_not_allowed("GET, HEAD"));
    }
    assert(ctx.request.query@.map_values(|p: (String, String)| p.deep_view())
        =~= ctx.request.query.deep_view());
    let params = match parse(ctx.request.query.as_slice(), ctx.config) {
        Ok(params) => params,
        Err(e) => return Err(e),
    };
    let last = match &params.last {
        Some(l) => Some(l.as_str()),
        None => None,
    };
    let got = registry.repositories(last, params.limit);
    proof {
        lemma_one_more(
            *old(registry),
            *old(registry),
            *registry,
            Event::Repositories(optional_text(last), params.limit, got),
        );
    }
    let page = match got {
        Ok(page) => page,
        Err(e) => return Err(ops_error(e)),
    };
    let headers = headers_for("/v2/_catalog", &params, &page);
    let document = Document::Catalog { repositories: page.items };
    Ok(
        Reply {
            status: 200,
            headers,
            body: ReplyBody::Json { document, quiet: method == Method::Head },
        },
    )
}

} // verus!
