//! What the handlers share.
use vstd::prelude::*;

use crate::server::error::{failure, failure_about, ApiError, ErrorCode, Failure};
use crate::server::http::{header, is_header_text, Method};
use crate::server::pagination::{link_next, link_text, PageParams, Paging};
use crate::server::seam::{Event, OpsError, Page, Registry};
use crate::text::{chars_of, decimal, decimal_text, find_char, first_index, text_of, trim, trimmed};

verus! {

/// What was asked after `before`.
pub open spec fn since<T>(before: Seq<T>, after: Seq<T>) -> Seq<T> {
    after.subrange(before.len() as int, after.len() as int)
}

/// Whether a conversation leads from one holding to another, exchange by exchange.
pub open spec fn leads<R: Registry>(
    before: R::Holding,
    talk: Seq<Event<R::Body, R::Content>>,
    after: R::Holding,
) -> bool
    decreases talk.len(),
{
    if talk.len() == 0 {
        before == after
    } else {
        exists|between: R::Holding|
            leads::<R>(before, talk.drop_last(), between) && #[trigger] R::steps(
                between,
                talk.last(),
                after,
            )
    }
}

/// Whether a registry has been asked more, and nothing that was asked before is
/// forgotten.
pub open spec fn continues<R: Registry>(before: R, after: R) -> bool {
    &&& before.log().len() <= after.log().len()
    &&& after.log().subrange(0, before.log().len() as int) == before.log()
    &&& leads::<R>(before.held(), since(before.log(), after.log()), after.held())
}

pub proof fn lemma_nothing_yet<R: Registry>(before: R)
    ensures
        continues(before, before),
        since(before.log(), before.log()) == Seq::<Event<R::Body, R::Content>>::empty(),
{
    let log = before.log();
    assert(log.subrange(0, log.len() as int) =~= log);
    assert(since(log, log) =~= Seq::empty());
}

/// One thing more was asked.
pub proof fn lemma_one_more<R: Registry>(
    before: R,
    between: R,
    after: R,
    e: Event<R::Body, R::Content>,
)
    requires
        continues(before, between),
        after.log() == between.log().push(e),
        R::steps(between.held(), e, after.held()),
    ensures
        continues(before, after),
        since(before.log(), after.log()) == since(before.log(), between.log()).push(e),
{
    let n = before.log().len() as int;
    assert(after.log().subrange(0, n) =~= between.log().subrange(0, n));
    let talk = since(before.log(), between.log());
    assert(since(before.log(), after.log()) =~= talk.push(e));
    assert(talk.push(e).drop_last() =~= talk);
    assert(talk.push(e).last() == e);
    assert(leads::<R>(before.held(), talk.push(e).drop_last(), between.held()) && R::steps(
        between.held(),
        talk.push(e).last(),
        after.held(),
    ));
}

/// One conversation after another.
pub proof fn lemma_both<R: Registry>(before: R, between: R, after: R)
    requires
        continues(before, between),
        continues(between, after),
    ensures
        continues(before, after),
        since(before.log(), after.log()) == since(before.log(), between.log()) + since(
            between.log(),
            after.log(),
        ),
{
    let (a, b, c) = (before.log(), between.log(), after.log());
    assert(c.subrange(0, a.len() as int) =~= a) by {
        assert(c.subrange(0, b.len() as int) == b);
        assert forall|i: int| 0 <= i < a.len() implies c[i] == a[i] by {
            assert(c.subrange(0, b.len() as int)[i] == c[i]);
            assert(b.subrange(0, a.len() as int)[i] == b[i]);
        }
    }
    assert(since(a, c) =~= since(a, b) + since(b, c)) by {
        assert forall|i: int| 0 <= i < since(a, c).len() implies since(a, c)[i] == (since(a, b)
            + since(b, c))[i] by {
            if i < since(a, b).len() {
                assert(c.subrange(0, b.len() as int)[a.len() + i] == c[a.len() + i]);
            }
        }
    }
    lemma_leads_on::<R>(
        before.held(),
        since(a, b),
        between.held(),
        since(b, c),
        after.held(),
    );
}

proof fn lemma_leads_on<R: Registry>(
    h: R::Holding,
    first: Seq<Event<R::Body, R::Content>>,
    i: R::Holding,
    second: Seq<Event<R::Body, R::Content>>,
    j: R::Holding,
)
    requires
        leads::<R>(h, first, i),
        leads::<R>(i, second, j),
    ensures
        leads::<R>(h, first + second, j),
    decreases second.len(),
{
    if second.len() == 0 {
        assert(first + second =~= first);
    } else {
        let k = choose|k: R::Holding|
            leads::<R>(i, second.drop_last(), k) && #[trigger] R::steps(k, second.last(), j);
        lemma_leads_on::<R>(h, first, i, second.drop_last(), k);
        assert((first + second).drop_last() =~= first + second.drop_last());
        assert((first + second).last() == second.last());
    }
}

/// The words for a body of the wrong size.
pub open spec fn size_words(expected: nat, actual: nat) -> Seq<char> {
    "expected "@ + decimal(expected) + " bytes, got "@ + decimal(actual)
}

/// A chunk that does not begin where the last one ended.
pub open spec fn out_of_order(detail: Seq<char>) -> Failure {
    Failure {
        status: 416,
        message: "chunk is out of order"@,
        ..failure_about(ErrorCode::BlobUploadInvalid, detail)
    }
}

/// What a registry's failure is answered with.
pub open spec fn ops_failure(e: OpsError) -> Failure {
    match e {
        OpsError::RepoUnknown => failure(ErrorCode::NameUnknown),
        OpsError::ManifestUnknown => failure(ErrorCode::ManifestUnknown),
        OpsError::BlobUnknown => failure(ErrorCode::BlobUnknown),
        OpsError::UploadUnknown => failure(ErrorCode::BlobUploadUnknown),
        OpsError::OffsetMismatch { current } => out_of_order(
            "expected the chunk to start at "@ + decimal(current as nat),
        ),
        OpsError::DigestMismatch => failure(ErrorCode::DigestInvalid),
        OpsError::SizeMismatch { declared, actual } => failure_about(
            ErrorCode::SizeInvalid,
            size_words(declared as nat, actual as nat),
        ),
        OpsError::BodyTooLarge { limit } => Failure {
            status: 413,
            message: "body exceeds the maximum accepted size"@,
            ..failure_about(
                ErrorCode::SizeInvalid,
                "limit is "@ + decimal(limit as nat) + " bytes"@,
            )
        },
        OpsError::BodyIncomplete(reason) => failure_about(ErrorCode::BlobUploadInvalid, reason@),
        OpsError::ManifestInvalid(reason) => failure_about(ErrorCode::ManifestInvalid, reason@),
        OpsError::ManifestBlobUnknown { digest } => failure_about(
            ErrorCode::ManifestBlobUnknown,
            digest.text(),
        ),
        OpsError::Internal(reason) => Failure {
            message: reason@,
            ..crate::server::error::bare_failure(500)
        },
    }
}

pub fn ops_error(e: OpsError) -> (r: ApiError)
    ensures
        r.deep_view() == ops_failure(e),
{
    match e {
        OpsError::RepoUnknown => ApiError::new(ErrorCode::NameUnknown),
        OpsError::ManifestUnknown => ApiError::new(ErrorCode::ManifestUnknown),
        OpsError::BlobUnknown => ApiError::new(ErrorCode::BlobUnknown),
        OpsError::UploadUnknown => ApiError::new(ErrorCode::BlobUploadUnknown),
        OpsError::OffsetMismatch { current } => {
            let detail = "expected the chunk to start at ".to_owned().concat(
                decimal_text(current).as_str(),
            );
            ApiError::new(ErrorCode::BlobUploadInvalid).with_status(416).with_message(
                "chunk is out of order",
            ).with_detail(detail.as_str())
        },
        OpsError::DigestMismatch => ApiError::new(ErrorCode::DigestInvalid),
        OpsError::SizeMismatch { declared, actual } => size_mismatch(
            decimal_text(declared).as_str(),
            actual,
        ),
        OpsError::BodyTooLarge { limit } => {
            let mut detail = "limit is ".to_owned();
            detail.append(decimal_text(limit).as_str());
            detail.append(" bytes");
            ApiError::new(ErrorCode::SizeInvalid).with_status(413).with_message(
                "body exceeds the maximum accepted size",
            ).with_detail(detail.as_str())
        },
        OpsError::BodyIncomplete(reason) => ApiError::new(ErrorCode::BlobUploadInvalid).with_detail(
            reason.as_str(),
        ),
        OpsError::ManifestInvalid(reason) => ApiError::new(ErrorCode::ManifestInvalid).with_detail(
            reason.as_str(),
        ),
        OpsError::ManifestBlobUnknown { digest } => ApiError::new(
            ErrorCode::ManifestBlobUnknown,
        ).with_detail(digest.to_text().as_str()),
        OpsError::Internal(reason) => ApiError::internal(reason),
    }
}

/// A body of another size than the one that was expected, which is given in
/// decimal.
pub fn size_mismatch(expected: &str, actual: u64) -> (r: ApiError)
    ensures
        r.deep_view() == failure_about(
            ErrorCode::SizeInvalid,
            "expected "@ + expected@ + " bytes, got "@ + decimal(actual as nat),
        ),
{
    let mut detail = "expected ".to_owned();
    detail.append(expected);
    detail.append(" bytes, got ");
    detail.append(decimal_text(actual).as_str());
    ApiError::new(ErrorCode::SizeInvalid).with_detail(detail.as_str())
}

/// Whether a method only reads.
pub open spec fn reads(m: Method) -> bool {
    m == Method::Get || m == Method::Head
}

/// A media type without its parameters.
pub open spec fn bare_media_type(s: Seq<char>) -> Seq<char> {
    trimmed(s.subrange(0, first_index(s, ';')))
}

pub fn media_type_of(s: &str) -> (r: String)
    ensures
        r@ == bare_media_type(s@),
{
    let chars = chars_of(s);
    let end: usize = find_char(chars.as_slice(), ';');
    let bare = vstd::slice::slice_subrange(chars.as_slice(), 0, end);
    text_of(trim(bare))
}

/// The headers of a listing: a `Link` exactly when a further page exists, unless
/// nothing was asked for.
pub open spec fn listing_headers(
    path: Seq<char>,
    p: Paging,
    items: Seq<Seq<char>>,
    more: bool,
) -> Seq<(Seq<char>, Seq<char>)> {
    let plain = seq![("content-type"@, "application/json"@)];
    if !p.explicit_zero && more && items.len() > 0 && is_header_text(
        link_text(path, items.last(), p.limit as nat),
    ) {
        plain.push(("link"@, link_text(path, items.last(), p.limit as nat)))
    } else {
        plain
    }
}

pub fn headers_for(path: &str, params: &PageParams, page: &Page<String>) -> (r: Vec<
    (String, String),
>)
    ensures
        r.deep_view() == listing_headers(
            path@,
            params.deep_view(),
            page.items.deep_view(),
            page.more,
        ),
{
    let mut headers: Vec<(String, String)> = Vec::new();
    headers.push(header("content-type", "application/json".to_owned()));
    let ghost plain = seq![("content-type"@, "application/json"@)];
    assert(headers.deep_view() =~= plain);
    if !params.explicit_zero && page.more && page.items.len() > 0 {
        let last = page.items[page.items.len() - 1].as_str();
        assert(last@ == page.items.deep_view().last());
        if let Some(link) = link_next(path, last, params.limit) {
            let ghost text = link@;
            headers.push(header("link", link));
            assert(headers.deep_view() =~= plain.push(("link"@, text)));
        }
    }
    headers
}

} // verus!
