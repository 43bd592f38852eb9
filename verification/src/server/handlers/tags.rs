//! `GET /v2/<name>/tags/list`.
//!
//! Tags come in byte order; `?last=` is exclusive; `?n=0` is answered with an empty
//! list and no `Link`, but an unknown repository is still unknown.
use vstd::prelude::*;

use crate::server::config::ServerConfig;
use crate::server::error::Failure;
use crate::server::handlers::common::{
    continues, headers_for, lemma_nothing_yet, lemma_one_more, listing_headers, ops_error,
    ops_failure, reads, since,
};
use crate::server::http::{
    answer, method_not_allowed, not_allowed, Asked, BodyView, Ctx, Document, Handled, Method, Reply,
    ReplyBody, Said, Written,
};
use crate::server::pagination::{paging, parse};
use crate::server::seam::{optional_text, Event, Registry};

verus! {

/// The path of a tag list.
pub open spec fn tag_list_path(name: Seq<char>) -> Seq<char> {
    "/v2/"@ + name + "/tags/list"@
}

/// Whether a tag listing asks the registry for the right page and makes the right
/// answer of what it says.
pub open spec fn lists_tags<B, C>(
    asked: Asked,
    config: ServerConfig,
    name: Seq<char>,
    talk: Seq<Event<B, C>>,
    said: Result<Said<C>, Failure>,
) -> bool {
    if !reads(asked.method) {
        talk.len() == 0 && said == Err::<Said<C>, Failure>(not_allowed("GET, HEAD"@))
    } else {
        match paging(asked.query, config) {
            Err(f) => talk.len() == 0 && said == Err::<Said<C>, Failure>(f),
            Ok(p) => talk.len() == 1 && match talk[0] {
                Event::Tags(n, last, limit, r) => {
                    &&& n == name
                    &&& last == p.last
                    &&& limit == p.limit
                    &&& said == match r {
                        Err(e) => Err::<Said<C>, Failure>(ops_failure(e)),
                        Ok(page) => Ok(
                            Said {
                                status: 200,
                                headers: listing_headers(
                                    tag_list_path(name),
                                    p,
                                    page.items.deep_view(),
                                    page.more,
                                ),
                                body: BodyView::Json {
                                    document: Written::Tags { name, tags: page.items.deep_view() },
                                    quiet: asked.method == Method::Head,
                                },
                            },
                        ),
                    }
                },
                _ => false,
            },
        }
    }
}

pub fn handle<R: Registry>(ctx: &Ctx, registry: &mut R, name: &str) -> (r: Handled<R::Content>)
    ensures
        continues(*old(registry), *final(registry)),
        lists_tags(
            ctx.request.deep_view(),
            *ctx.config,
            name@,
            since(old(registry).log(), final(registry).log()),
            answer(r),
        ),
{
    proof {
        lemma_nothing_yet(*old(registry));
    }
    let method = ctx.request.method;
    if method != Method::Get && method != Method::Head {
        return Err(method_not_allowed("GET, HEAD"));
    }
    assert(ctx.request.query@.map_values(|p: (String, String)| p.deep_view())
        =~= ctx.request.query.deep_view());
    let params = match parse(ctx.request.query.as_slice(), ctx.config) {
        Ok(params) => params,
        Err(e) => return Err(e),
    };
    let last = match &params.last {
        Some(l) => Some(l.as_str()),
        None => None,
    };
    let got = registry.tags(name, last, params.limit);
    proof {
        lemma_one_more(
            *old(registry),
            *old(registry),
            *registry,
            Event::Tags(name@, optional_text(last), params.limit, got),
        );
    }
    let page = match got {
        Ok(page) => page,
        Err(e) => return Err(ops_error(e)),
    };
    let mut path = "/v2/".to_owned();
    path.append(name);
    path.append("/tags/list");
    let headers = headers_for(path.as_str(), &params, &page);
    let document = Document::Tags { name: name.to_owned(), tags: page.items };
    Ok(
        Reply {
            status: 200,
            headers,
            body: ReplyBody::Json { document, quiet: method == Method::Head },
        },
    )
}

} // verus!
