//! `GET /v2/`.
//!
//! Only the status is prescribed. Every registry answers `{}`, and some tooling
//! parses it, so this one answers exactly that.
use vstd::prelude::*;

use crate::server::error::Failure;
use crate::server::http::{
    answer, bodiless, empty_with_length, header, length_header, method_not_allowed, not_allowed,
    BodyView, Ctx, Handled, Method, Reply, ReplyBody, Said,
};
use crate::text::decimal_text;

verus! {

/// What a `/v2/` request is answered with.
pub open spec fn base_answer<C>(method: Method) -> Result<Said<C>, Failure> {
    let kind = ("content-type"@, "application/json"@);
    match method {
        Method::Get => Ok(
            Said {
                status: 200,
                headers: seq![kind, length_header(2)],
                body: BodyView::Bytes(seq![0x7bu8, 0x7du8]),
            },
        ),
        Method::Head => Ok(bodiless(200, 2, seq![kind])),
        _ => Err(not_allowed("GET, HEAD"@)),
    }
}

pub fn handle<C>(ctx: &Ctx) -> (r: Handled<C>)
    ensures
        answer(r) == base_answer::<C>(ctx.request.method),
{
    match ctx.request.method {
        Method::Get => {
            let mut headers: Vec<(String, String)> = Vec::new();
            headers.push(header("content-type", "application/json".to_owned()));
            headers.push(header("content-length", decimal_text(2)));
            let mut body: Vec<u8> = Vec::new();
            body.push(0x7b);
            body.push(0x7d);
            assert(body@ =~= seq![0x7bu8, 0x7du8]);
            assert(headers.deep_view() =~= seq![
                ("content-type"@, "application/json"@),
                length_header(2),
            ]);
            Ok(Reply { status: 200, headers, body: ReplyBody::Bytes(body) })
        },
        Method::Head => {
            let mut headers: Vec<(String, String)> = Vec::new();
            headers.push(header("content-type", "application/json".to_owned()));
            assert(headers.deep_view() =~= seq![("content-type"@, "application/json"@)]);
            Ok(empty_with_length(200, 2, headers))
        },
        _ => Err(method_not_allowed("GET, HEAD")),
    }
}

} // verus!
