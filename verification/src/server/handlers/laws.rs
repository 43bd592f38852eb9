//! What a client can rely on, whatever registry answers: which question a request
//! becomes, and what is made of each answer.
use vstd::prelude::*;

use crate::digest::Digest;
use crate::server::config::ServerConfig;
use crate::server::error::{ErrorCode, Failure};
use crate::server::app::{routed, Target};
use crate::server::handlers::api::{handles_api, page_asked, ApiEndpoint};
use crate::server::handlers::base::base_answer;
use crate::server::handlers::blobs::handles_blob;
use crate::server::handlers::catalog::lists_repositories;
use crate::server::handlers::common::ops_failure;
use crate::server::handlers::dispatch::handles;
use crate::server::handlers::manifests::{handles_manifest, pushed_type};
use crate::server::handlers::referrers::{lists_referrers, referrers_link};
use crate::server::handlers::tags::lists_tags;
use crate::server::handlers::uploads::{chunk_claim, creates, handles_session};
use crate::server::http::{
    is_header_text, stamped, Asked, BodyView, Method, Said, Written, API_VERSION_HEADER,
};
use crate::server::pagination::{paging, Paging};
use crate::server::query::{first_value, values_of};
use crate::server::range::{
    a_range_from_a_to_b_is_that_window, digits_a_dash_and_digits_are_a_chunk_range, range_header,
    ByteRange,
};
use crate::server::reference::{
    digest_request, digests_are_requested_by_their_text, is_name, is_tag, Referred,
};
use crate::server::seam::{Event, ManifestPut, OpsError, OpsResult, Page};
use crate::text::{
    decimal, is_space, lemma_decimal_reads_back, lemma_first_index, numbers_read_back,
    parsed_unsigned, trimmed, trimming_takes_only_the_spaces_around,
};

verus! {

/// An answer carries a header with this value, and no other value before it.
pub open spec fn says<C>(said: Said<C>, name: Seq<char>, value: Seq<char>) -> bool {
    first_value(said.headers, name) == Some(value)
}

// --- blobs ------------------------------------------------------------------------

/// A request for the bytes from `a` to `b` of a blob asks the registry for exactly
/// that window, cut off at the blob's end, and is answered with it: `206`, the window's
/// place and length, and the bytes that were read. Where the blob ends before `a`, no
/// byte is asked for and the answer says how long it is.
pub proof fn a_window_that_is_asked_for_is_read_and_sent<B, C>(
    asked: Asked,
    name: Seq<char>,
    digest: Digest,
    talk: Seq<Event<B, C>>,
    said: Result<Said<C>, Failure>,
    a: u64,
    b: u64,
    total: u64,
)
    requires
        asked.method == Method::Get,
        asked.header("range"@) == Some(range_header(decimal(a as nat), decimal(b as nat))),
        handles_blob(asked, name, digest.text(), talk, said),
        talk.len() > 0,
        talk[0] == Event::<B, C>::StatBlob(name, digest, Ok(total)),
        a <= b,
    ensures
        a >= total ==> talk.len() == 1 && said is Err && (said->Err_0).status == 416 && first_value(
            (said->Err_0).headers,
            "content-range"@,
        ) == Some("bytes */"@ + decimal(total as nat)),
        a < total ==> {
            let end = if b < total {
                b
            } else {
                (total - 1) as u64
            };
            &&& talk.len() == 2
            &&& talk[1] matches Event::GetBlob(n, d, w, got) && n == name && d == digest && w
                == Some(ByteRange { start: a, end }) && (got matches Ok(read) ==> (read.window == w
                && read.total_size == total ==> {
                &&& said is Ok
                &&& (said->Ok_0).status == 206
                &&& (said->Ok_0).body == BodyView::Blob(read.body)
                &&& says(said->Ok_0, "content-length"@, decimal((end - a + 1) as nat))
                &&& says(
                    said->Ok_0,
                    "content-range"@,
                    "bytes "@ + decimal(a as nat) + "-"@ + decimal(end as nat) + "/"@ + decimal(
                        total as nat,
                    ),
                )
                &&& says(said->Ok_0, "docker-content-digest"@, digest.text())
            })) && (got matches Err(e) ==> said == Err::<Said<C>, Failure>(ops_failure(e)))
        },
{
    digests_are_requested_by_their_text(digest);
    a_range_from_a_to_b_is_that_window(a, b, total);
    lemma_blob_headers::<C>();
    reveal_with_fuel(first_value, 6);
    if said is Ok {
        lemma_front((said->Ok_0).headers);
    }
}

/// The names of a blob's headers are different names.
proof fn lemma_blob_headers<C>()
    ensures
        "content-type"@.len() == 12,
        "accept-ranges"@ != "content-range"@,
        "accept-ranges"@.len() == 13,
        "content-range"@.len() == 13,
        "docker-content-digest"@.len() == 21,
        "content-length"@.len() == 14,
{
    reveal_strlit("content-type");
    reveal_strlit("accept-ranges");
    reveal_strlit("docker-content-digest");
    reveal_strlit("content-length");
    reveal_strlit("content-range");
    assert("accept-ranges"@[0] == 'a' && "content-range"@[0] == 'c');
}

/// What stands behind the front of a list.
proof fn lemma_front<T>(s: Seq<T>)
    ensures
        s.len() > 1 ==> s.drop_first()[0] == s[1],
        s.len() > 2 ==> s.drop_first().drop_first()[0] == s[2],
        s.len() > 3 ==> s.drop_first().drop_first().drop_first()[0] == s[3],
        s.len() > 4 ==> s.drop_first().drop_first().drop_first().drop_first()[0] == s[4],
{
}

/// A pull without a range is of the whole blob, and a `HEAD` says of it what the pull
/// would, without reading it.
pub proof fn a_whole_blob_is_read_and_sent<B, C>(
    asked: Asked,
    name: Seq<char>,
    digest: Digest,
    talk: Seq<Event<B, C>>,
    said: Result<Said<C>, Failure>,
    size: OpsResult<u64>,
)
    requires
        asked.header("range"@) is None,
        handles_blob(asked, name, digest.text(), talk, said),
        asked.method == Method::Get || asked.method == Method::Head,
        talk.len() > 0,
        talk[0] == Event::<B, C>::StatBlob(name, digest, size),
    ensures
        size matches Err(e) ==> talk.len() == 1 && said == Err::<Said<C>, Failure>(ops_failure(e)),
        size matches Ok(total) ==> (asked.method == Method::Head ==> talk.len() == 1 && said is Ok
            && (said->Ok_0).status == 200 && (said->Ok_0).body is Empty && says(
            said->Ok_0,
            "content-length"@,
            decimal(total as nat),
        ) && says(said->Ok_0, "docker-content-digest"@, digest.text())),
        size is Ok && asked.method == Method::Get ==> talk.len() == 2 && (
        talk[1] matches Event::GetBlob(n, d, w, got) && n == name && d == digest && w is None && (
        got matches Ok(read) ==> (read.window is None ==> said is Ok && (said->Ok_0).status == 200
            && (said->Ok_0).body == BodyView::Blob(read.body) && says(
            said->Ok_0,
            "content-length"@,
            decimal(read.total_size as nat),
        ) && says(said->Ok_0, "docker-content-digest"@, digest.text()))) && (got matches Err(e)
            ==> said == Err::<Said<C>, Failure>(ops_failure(e)))),
{
    digests_are_requested_by_their_text(digest);
    lemma_blob_headers::<C>();
    reveal_with_fuel(first_value, 6);
    if said is Ok {
        lemma_front((said->Ok_0).headers);
    }
}

/// Deleting a blob asks for that blob of that repository to go, and is acknowledged
/// only once it is gone.
pub proof fn a_blob_is_deleted_by_its_digest<B, C>(
    asked: Asked,
    name: Seq<char>,
    digest: Digest,
    talk: Seq<Event<B, C>>,
    said: Result<Said<C>, Failure>,
)
    requires
        asked.method == Method::Delete,
        handles_blob(asked, name, digest.text(), talk, said),
    ensures
        talk.len() == 1,
        talk[0] matches Event::DeleteBlob(n, d, done) && n == name && d == digest && (match done {
            Ok(_) => said is Ok && (said->Ok_0).status == 202,
            Err(e) => said == Err::<Said<C>, Failure>(ops_failure(e)),
        }),
{
    digests_are_requested_by_their_text(digest);
}

// --- manifests --------------------------------------------------------------------

/// A `HEAD` on a manifest asks for what is known of it and tells it: its digest, its
/// type and its length, without the body.
pub proof fn a_head_tells_what_a_pull_would_send<B, C>(
    asked: Asked,
    config: ServerConfig,
    name: Seq<char>,
    reference: Seq<char>,
    body: B,
    talk: Seq<Event<B, C>>,
    said: Result<Said<C>, Failure>,
)
    requires
        asked.method == Method::Head,
        is_tag(reference) && !reference.contains(':'),
        handles_manifest(asked, config, name, reference, body, talk, said),
    ensures
        talk.len() == 1,
        talk[0] matches Event::StatManifest(n, what, got) && n == name && what == Referred::Tag(
            reference,
        ) && (match got {
            Ok(stat) => said is Ok && (said->Ok_0).status == 200 && (said->Ok_0).body is Empty
                && says(said->Ok_0, "docker-content-digest"@, stat.digest.text()) && says(
                said->Ok_0,
                "content-length"@,
                decimal(stat.size as nat),
            ) && (is_header_text(stat.media_type@) ==> says(
                said->Ok_0,
                "content-type"@,
                stat.media_type@,
            )),
            Err(e) => said == Err::<Said<C>, Failure>(ops_failure(e)),
        }),
{
    lemma_blob_headers::<C>();
    reveal_strlit("etag");
    reveal_with_fuel(first_value, 5);
    if said is Ok {
        lemma_front((said->Ok_0).headers);
    }
}

/// A push within the limit hands the registry the bytes as they came, the type they
/// came as, the reference they were pushed to and every further tag, and is
/// acknowledged with the digest that the registry gave: `201`, and where to pull it.
pub proof fn a_push_hands_over_what_came<B, C>(
    asked: Asked,
    config: ServerConfig,
    name: Seq<char>,
    reference: Seq<char>,
    body: B,
    talk: Seq<Event<B, C>>,
    said: Result<Said<C>, Failure>,
    bytes: Vec<u8>,
)
    requires
        asked.method == Method::Put,
        is_tag(reference) && !reference.contains(':'),
        handles_manifest(asked, config, name, reference, body, talk, said),
        asked.header("content-length"@) matches Some(v) ==> (parsed_unsigned(
            v,
            usize::MAX as nat,
        ) matches Some(n) ==> n <= config.max_manifest_bytes),
        talk.len() > 0,
        talk[0] matches Event::ReadWhole(_, _, Some(read)) && read == bytes,
        values_of(asked.query, "tag"@).len() <= config.max_tag_params,
        forall|i: int|
            0 <= i < values_of(asked.query, "tag"@).len() ==> is_tag(
                #[trigger] values_of(asked.query, "tag"@)[i],
            ),
    ensures
        talk[0] matches Event::ReadWhole(sent, limit, _) && sent == body && limit
            == config.max_manifest_bytes,
        talk.len() == 2,
        talk[1] matches Event::PutManifest(n, what, kind, tags, stored, put) && n == name && what
            == Referred::Tag(reference) && kind == pushed_type(asked) && tags == values_of(
            asked.query,
            "tag"@,
        ) && stored == bytes@ && (match put {
            Ok(p) => said is Ok && (said->Ok_0).status == 201 && says(
                said->Ok_0,
                "docker-content-digest"@,
                p.digest.text(),
            ) && (is_header_text("/v2/"@ + name + "/manifests/"@ + p.digest.text()) ==> says(
                said->Ok_0,
                "location"@,
                "/v2/"@ + name + "/manifests/"@ + p.digest.text(),
            )),
            Err(e) => said == Err::<Said<C>, Failure>(ops_failure(e)),
        }),
{
    lemma_no_bad_tag(values_of(asked.query, "tag"@));
    lemma_blob_headers::<C>();
    reveal_strlit("location");
    reveal_with_fuel(first_value, 3);
    if said is Ok {
        lemma_front((said->Ok_0).headers);
    }
}

proof fn lemma_no_bad_tag(tags: Seq<Seq<char>>)
    requires
        forall|i: int| 0 <= i < tags.len() ==> is_tag(#[trigger] tags[i]),
    ensures
        crate::server::handlers::manifests::first_bad_tag(tags) is None,
    decreases tags.len(),
{
    if tags.len() > 0 {
        assert(is_tag(tags[0]));
        assert forall|i: int| 0 <= i < tags.drop_first().len() implies is_tag(
            #[trigger] tags.drop_first()[i],
        ) by {
            assert(tags.drop_first()[i] == tags[i + 1]);
        }
        lemma_no_bad_tag(tags.drop_first());
    }
}

/// A push that names a tag outside the grammar, or too many of them, stores nothing.
pub proof fn a_push_with_a_bad_tag_stores_nothing<B, C>(
    asked: Asked,
    config: ServerConfig,
    name: Seq<char>,
    reference: Seq<char>,
    body: B,
    talk: Seq<Event<B, C>>,
    said: Result<Said<C>, Failure>,
    i: int,
)
    requires
        asked.method == Method::Put,
        handles_manifest(asked, config, name, reference, body, talk, said),
        values_of(asked.query, "tag"@).len() > config.max_tag_params || (0 <= i < values_of(
            asked.query,
            "tag"@,
        ).len() && !is_tag(values_of(asked.query, "tag"@)[i])),
    ensures
        said is Err,
        talk.len() <= 1,
        talk.len() == 1 ==> talk[0] is ReadWhole,
{
    if 0 <= i < values_of(asked.query, "tag"@).len() && !is_tag(values_of(asked.query, "tag"@)[i]) {
        lemma_bad_tag(values_of(asked.query, "tag"@), i);
    }
}

proof fn lemma_bad_tag(tags: Seq<Seq<char>>, i: int)
    requires
        0 <= i < tags.len(),
        !is_tag(tags[i]),
    ensures
        crate::server::handlers::manifests::first_bad_tag(tags) is Some,
    decreases tags.len(),
{
    if is_tag(tags[0]) {
        assert(tags.drop_first()[i - 1] == tags[i]);
        lemma_bad_tag(tags.drop_first(), i - 1);
    }
}

/// Deleting by a reference asks for what it names to go, and is acknowledged only
/// once it is gone.
pub proof fn a_manifest_is_deleted_by_its_reference<B, C>(
    asked: Asked,
    config: ServerConfig,
    name: Seq<char>,
    reference: Referred,
    body: B,
    talk: Seq<Event<B, C>>,
    said: Result<Said<C>, Failure>,
)
    requires
        asked.method == Method::Delete,
        reference matches Referred::Tag(t) ==> is_tag(t) && !t.contains(':'),
        handles_manifest(
            asked,
            config,
            name,
            match reference {
                Referred::Tag(t) => t,
                Referred::Digest(d) => d.text(),
            },
            body,
            talk,
            said,
        ),
    ensures
        talk.len() == 1,
        talk[0] matches Event::DeleteManifest(n, what, done) && n == name && what == reference && (
        match done {
            Ok(_) => said is Ok && (said->Ok_0).status == 202,
            Err(e) => said == Err::<Said<C>, Failure>(ops_failure(e)),
        }),
{
    if let Referred::Digest(d) = reference {
        digests_are_requested_by_their_text(d);
    }
}

// --- uploads ----------------------------------------------------------------------

/// What a request claims of its chunk is held against the session: a range of the
/// length it declares that begins where the session stands is taken, with that
/// length; one of another length is refused, and one that begins elsewhere is `416`.
pub proof fn a_chunk_is_held_to_its_claim(asked: Asked, a: u64, b: u64, length: u64, offset: u64)
    requires
        asked.header("content-range"@) == Some(
            decimal(a as nat) + seq!['-'] + decimal(b as nat),
        ),
        asked.header("content-length"@) == Some(decimal(length as nat)),
        a <= b,
    ensures
        length == b - a + 1 && a == offset ==> chunk_claim(asked, offset) == Ok::<
            Option<u64>,
            Failure,
        >(Some(length)),
        length != b - a + 1 ==> (chunk_claim(asked, offset) matches Err(f) && f.status == 400
            && f.body == Some(ErrorCode::SizeInvalid)),
        length == b - a + 1 && a != offset ==> (chunk_claim(asked, offset) matches Err(f)
            && f.status == 416),
{
    lemma_decimal_reads_back(a as nat);
    lemma_decimal_reads_back(b as nat);
    lemma_decimal_reads_back(length as nat);
    let (x, y, z) = (decimal(a as nat), decimal(b as nat), decimal(length as nat));
    assert(crate::text::is_decimal(x[0]) && crate::text::is_decimal(y[0])
        && crate::text::is_decimal(z[0]));
    assert(crate::text::unsigned_digits(x) == x);
    assert(crate::text::unsigned_digits(y) == y);
    assert(crate::text::unsigned_digits(z) == z);
    digits_a_dash_and_digits_are_a_chunk_range(x, y);
}

/// A chunk that fits is handed to the registry as it came, at the place where the
/// session stands and under the limit; the client is told how far the session got
/// and where to go on.
pub proof fn a_chunk_that_fits_is_handed_over<B, C>(
    asked: Asked,
    config: ServerConfig,
    name: Seq<char>,
    id: Seq<char>,
    body: B,
    talk: Seq<Event<B, C>>,
    said: Result<Said<C>, Failure>,
    offset: u64,
    claim: Option<u64>,
)
    requires
        asked.method == Method::Patch,
        handles_session(asked, config, name, id, body, talk, said),
        talk.len() > 0,
        talk[0] == Event::<B, C>::UploadOffset(name, id, Ok(offset)),
        chunk_claim(asked, offset) == Ok::<Option<u64>, Failure>(claim),
        config.max_upload_chunk_bytes <= u64::MAX,
    ensures
        talk.len() == 2,
        talk[1] matches Event::AppendUpload(n, i, at, sent, got) && n == name && i == id && at
            == offset && sent.body == body && sent.declared == claim && (
        sent.limit matches Some(most) && most == config.max_upload_chunk_bytes) && (match got {
            Ok(now) => said is Ok && (said->Ok_0).status == 202 && (now > 0 ==> says(
                said->Ok_0,
                "range"@,
                "0-"@ + decimal((now - 1) as nat),
            )) && (is_header_text("/v2/"@ + name + "/blobs/uploads/"@ + id) ==> says(
                said->Ok_0,
                "location"@,
                "/v2/"@ + name + "/blobs/uploads/"@ + id,
            )),
            Err(e) => said == Err::<Said<C>, Failure>(ops_failure(e)),
        }),
{
    if let Event::AppendUpload(_, _, _, _, Ok(now)) = talk[1] {
        lemma_session_headers::<C>(now);
        reveal_with_fuel(first_value, 4);
        lemma_front((said->Ok_0).headers);
    }
}

proof fn lemma_session_headers<C>(now: u64)
    ensures
        "location"@.len() == 8,
        "range"@.len() == 5,
        "content-length"@.len() == 14,
        now > 0 ==> is_header_text("0-"@ + decimal((now - 1) as nat)),
        is_header_text("0-"@ + decimal(0)),
{
    reveal_strlit("location");
    reveal_strlit("range");
    reveal_strlit("content-length");
    lemma_range_is_plain(0);
    if now > 0 {
        lemma_range_is_plain((now - 1) as nat);
    }
}

proof fn lemma_range_is_plain(n: nat)
    ensures
        is_header_text("0-"@ + decimal(n)),
{
    reveal_strlit("0-");
    let s = "0-"@ + decimal(n);
    lemma_decimal_reads_back(n);
    assert forall|i: int| 0 <= i < s.len() implies (#[trigger] s[i] == '\t' || s[i] >= ' ' && s[i]
        != '\u{7f}') by {
        if i >= 2 {
            assert(s[i] == decimal(n)[i - 2]);
            assert(crate::text::is_decimal(decimal(n)[i - 2]));
        }
    }
}

/// A session's status is the place where it stands, and asking for it asks nothing
/// else. Giving a session up asks for just that.
pub proof fn a_status_is_where_the_session_stands<B, C>(
    asked: Asked,
    config: ServerConfig,
    name: Seq<char>,
    id: Seq<char>,
    body: B,
    talk: Seq<Event<B, C>>,
    said: Result<Said<C>, Failure>,
)
    requires
        asked.method == Method::Get || asked.method == Method::Delete,
        handles_session(asked, config, name, id, body, talk, said),
    ensures
        talk.len() == 1,
        asked.method == Method::Get ==> (talk[0] matches Event::UploadOffset(n, i, got) && n == name
            && i == id && (match got {
            Ok(now) => said is Ok && (said->Ok_0).status == 204 && (now > 0 ==> says(
                said->Ok_0,
                "range"@,
                "0-"@ + decimal((now - 1) as nat),
            )) && (now == 0 ==> says(said->Ok_0, "range"@, "0-"@ + decimal(0))),
            Err(e) => said == Err::<Said<C>, Failure>(ops_failure(e)),
        })),
        asked.method == Method::Delete ==> (talk[0] matches Event::CancelUpload(n, i, got) && n
            == name && i == id && (match got {
            Ok(_) => said is Ok && (said->Ok_0).status == 204,
            Err(e) => said == Err::<Said<C>, Failure>(ops_failure(e)),
        })),
{
    if let Event::UploadOffset(_, _, Ok(now)) = talk[0] {
        lemma_session_headers::<C>(now);
        reveal_with_fuel(first_value, 4);
        if said is Ok {
            lemma_front((said->Ok_0).headers);
        }
    }
}

/// Closing an upload hands over the last chunk as it came, at the place where the
/// session stands, under the digest that the client names; once it is stored the
/// client is told the digest and where to pull it. Without a digest nothing is asked.
pub proof fn an_upload_is_closed_under_the_digest_that_is_named<B, C>(
    asked: Asked,
    config: ServerConfig,
    name: Seq<char>,
    id: Seq<char>,
    body: B,
    talk: Seq<Event<B, C>>,
    said: Result<Said<C>, Failure>,
    digest: Digest,
    offset: u64,
    claim: Option<u64>,
)
    requires
        asked.method == Method::Put,
        handles_session(asked, config, name, id, body, talk, said),
        chunk_claim(asked, offset) == Ok::<Option<u64>, Failure>(claim),
        config.max_upload_chunk_bytes <= u64::MAX,
    ensures
        asked.param("digest"@) is None ==> talk.len() == 0 && said is Err && (said->Err_0).status
            == 400,
        asked.param("digest"@) == Some(digest.text()) && talk.len() > 0 && talk[0] == Event::<
            B,
            C,
        >::UploadOffset(name, id, Ok(offset)) ==> talk.len() == 2 && (
        talk[1] matches Event::FinishUpload(n, i, at, sent, d, done) && n == name && i == id && at
            == offset && sent.body == body && sent.declared == claim && (
        sent.limit matches Some(most) && most == config.max_upload_chunk_bytes) && d == digest && (
        match done {
            Ok(_) => said is Ok && (said->Ok_0).status == 201 && says(
                said->Ok_0,
                "docker-content-digest"@,
                digest.text(),
            ) && (is_header_text("/v2/"@ + name + "/blobs/"@ + digest.text()) ==> says(
                said->Ok_0,
                "location"@,
                "/v2/"@ + name + "/blobs/"@ + digest.text(),
            )),
            Err(e) => said == Err::<Said<C>, Failure>(ops_failure(e)),
        })),
{
    digests_are_requested_by_their_text(digest);
    lemma_blob_headers::<C>();
    reveal_strlit("location");
    reveal_with_fuel(first_value, 4);
    if said is Ok {
        lemma_front((said->Ok_0).headers);
    }
}

/// A whole blob in one request is handed over as it came, under the digest that the
/// client names. Without one a session is opened, under the algorithm that is asked
/// for, and the client is told where it is.
pub proof fn a_post_stores_a_blob_or_opens_a_session<B, C>(
    asked: Asked,
    config: ServerConfig,
    name: Seq<char>,
    id: Seq<char>,
    body: B,
    talk: Seq<Event<B, C>>,
    said: Result<Said<C>, Failure>,
    digest: Digest,
)
    requires
        asked.method == Method::Post,
        asked.param("mount"@) is None,
        creates(asked, config, name, id, body, talk, said),
        config.max_upload_chunk_bytes <= u64::MAX,
    ensures
        asked.param("digest"@) == Some(digest.text()) ==> talk.len() == 1 && (
        talk[0] matches Event::PutBlob(n, d, sent, done) && n == name && d == digest && sent.body
            == body && sent.declared is None && (sent.limit matches Some(most) && most
            == config.max_upload_chunk_bytes) && (match done {
            Ok(_) => said is Ok && (said->Ok_0).status == 201 && says(
                said->Ok_0,
                "docker-content-digest"@,
                digest.text(),
            ) && (is_header_text("/v2/"@ + name + "/blobs/"@ + digest.text()) ==> says(
                said->Ok_0,
                "location"@,
                "/v2/"@ + name + "/blobs/"@ + digest.text(),
            )),
            Err(e) => said == Err::<Said<C>, Failure>(ops_failure(e)),
        })),
        asked.param("digest"@) is None && (asked.param("digest-algorithm"@) matches Some(x) ==> x
            == "sha256"@ || x == "sha512"@) ==> talk.len() == 1 && (
        talk[0] matches Event::CreateUpload(n, i, kind, done) && n == name && i == id && kind == (
        match asked.param("digest-algorithm"@) {
            Some(x) => x,
            None => "sha256"@,
        }) && (match done {
            Ok(_) => said is Ok && (said->Ok_0).status == 202 && (is_header_text(
                "/v2/"@ + name + "/blobs/uploads/"@ + id,
            ) ==> says(said->Ok_0, "location"@, "/v2/"@ + name + "/blobs/uploads/"@ + id)),
            Err(e) => said == Err::<Said<C>, Failure>(ops_failure(e)),
        })),
{
    digests_are_requested_by_their_text(digest);
    lemma_blob_headers::<C>();
    reveal_strlit("location");
    reveal_strlit("range");
    reveal_strlit("sha256");
    reveal_strlit("sha512");
    reveal_with_fuel(first_value, 5);
    if said is Ok {
        lemma_front((said->Ok_0).headers);
    }
}

/// A mount asks for the blob that is named, from the repository that is named if it is
/// a name at all; a blob that was mounted is answered as one that was uploaded. A
/// refusal is no error: the client is then treated as if it had not asked to mount.
pub proof fn a_mount_is_asked_for_first<B, C>(
    asked: Asked,
    config: ServerConfig,
    name: Seq<char>,
    id: Seq<char>,
    body: B,
    talk: Seq<Event<B, C>>,
    said: Result<Said<C>, Failure>,
    digest: Digest,
)
    requires
        asked.method == Method::Post,
        asked.param("mount"@) == Some(digest.text()),
        asked.param("digest"@) is None,
        asked.param("digest-algorithm"@) is None,
        creates(asked, config, name, id, body, talk, said),
    ensures
        talk.len() > 0,
        talk[0] matches Event::MountBlob(n, d, from, done) && n == name && d == digest && (
        asked.param("from"@) matches Some(f) ==> (is_name(f) ==> from == Some(f)) && (!is_name(f)
            ==> from is None)) && (asked.param("from"@) is None ==> from is None) && (match done {
            Ok(true) => talk.len() == 1 && said is Ok && (said->Ok_0).status == 201 && says(
                said->Ok_0,
                "docker-content-digest"@,
                digest.text(),
            ),
            Ok(false) => talk.len() == 2 && (talk[1] matches Event::CreateUpload(m, i, kind, opened)
                && m == name && i == id && kind == "sha256"@ && (opened is Ok ==> said is Ok && (
            said->Ok_0).status == 202)),
            Err(e) => talk.len() == 1 && said == Err::<Said<C>, Failure>(ops_failure(e)),
        }),
{
    digests_are_requested_by_their_text(digest);
    lemma_blob_headers::<C>();
    reveal_strlit("location");
    reveal_with_fuel(first_value, 4);
    if said is Ok {
        lemma_front((said->Ok_0).headers);
    }
    if talk.len() > 1 {
        assert(talk.drop_first()[0] == talk[1]);
    }
}

// --- listings ---------------------------------------------------------------------

/// The page that a query asks for: as many as it says, held to the ceiling, or as many
/// as is usual, behind the item it names. A number that is none is refused.
pub proof fn a_page_is_the_one_that_was_asked_for(
    pairs: Seq<(Seq<char>, Seq<char>)>,
    config: ServerConfig,
    n: u64,
)
    ensures
        first_value(pairs, "n"@) is None ==> (paging(pairs, config) matches Ok(p) && p.limit
            == config.default_page_size),
        first_value(pairs, "n"@) == Some(decimal(n as nat)) ==> (paging(pairs, config) matches Ok(p)
            && p.limit == if n <= config.max_page_size {
            n as int
        } else {
            config.max_page_size as int
        }),
        first_value(pairs, "n"@) matches Some(v) ==> (parsed_unsigned(v, u64::MAX as nat) is None
            ==> (paging(pairs, config) matches Err(f) && f.status == 400)),
        paging(pairs, config) matches Ok(p) ==> p.last == (match first_value(pairs, "last"@) {
            Some(l) => if l.len() > 0 {
                Some(l)
            } else {
                None
            },
            None => None,
        }),
{
    lemma_decimal_reads_back(n as nat);
    let d = decimal(n as nat);
    assert(crate::text::is_decimal(d[0]));
    assert(crate::text::unsigned_digits(d) == d);
}

/// A listing asks for the page that the query names and shows what it is given, in the
/// order it is given, with a link to the next page exactly where there is one: behind
/// the last item shown, of the same size.
pub proof fn a_listing_shows_the_page_and_links_the_next<B, C>(
    asked: Asked,
    config: ServerConfig,
    name: Seq<char>,
    talk: Seq<Event<B, C>>,
    said: Result<Said<C>, Failure>,
    p: Paging,
    page: Page<String>,
)
    requires
        asked.method == Method::Get || asked.method == Method::Head,
        paging(asked.query, config) == Ok::<Paging, Failure>(p),
        lists_tags(asked, config, name, talk, said),
        talk.len() > 0,
        talk[0] matches Event::Tags(_, _, _, Ok(got)) && got == page,
    ensures
        talk.len() == 1,
        talk[0] matches Event::Tags(n, last, limit, _) && n == name && last == p.last && limit
            == p.limit,
        said is Ok,
        (said->Ok_0).status == 200,
        (said->Ok_0).body matches BodyView::Json { document, quiet } && quiet == (asked.method
            == Method::Head) && document == (Written::Tags { name, tags: page.items.deep_view() }),
        ({
            let link = "</v2/"@ + name + "/tags/list?last="@ + crate::server::query::escaped(
                vstd::utf8::encode_utf8(page.items.deep_view().last()),
            ) + "&n="@ + decimal(p.limit as nat) + ">; rel=\"next\""@;
            &&& page.more && page.items@.len() > 0 && !p.explicit_zero && is_header_text(link)
                ==> says(said->Ok_0, "link"@, link)
            &&& !page.more ==> first_value((said->Ok_0).headers, "link"@) is None
        }),
{
    lemma_link_parts(name, page.items.deep_view().last(), p.limit as nat);
    reveal_strlit("content-type");
    reveal_strlit("link");
    assert("content-type"@.len() == 12 && "link"@.len() == 4);
    reveal_with_fuel(first_value, 3);
    if said is Ok {
        lemma_front((said->Ok_0).headers);
    }
    assert(page.items.deep_view().len() == page.items@.len());
}

/// A link's text, put together.
proof fn lemma_link_parts(name: Seq<char>, last: Seq<char>, n: nat)
    ensures
        crate::server::pagination::link_text("/v2/"@ + name + "/tags/list"@, last, n) == "</v2/"@
            + name + "/tags/list?last="@ + crate::server::query::escaped(
            vstd::utf8::encode_utf8(last),
        ) + "&n="@ + decimal(n) + ">; rel=\"next\""@,
{
    reveal_strlit("<");
    reveal_strlit("/v2/");
    reveal_strlit("</v2/");
    reveal_strlit("/tags/list");
    reveal_strlit("?last=");
    reveal_strlit("/tags/list?last=");
    let e = crate::server::query::escaped(vstd::utf8::encode_utf8(last));
    assert("<"@ + "/v2/"@ =~= "</v2/"@);
    assert("/tags/list"@ + "?last="@ =~= "/tags/list?last="@);
    assert(crate::server::pagination::link_text("/v2/"@ + name + "/tags/list"@, last, n)
        =~= "</v2/"@ + name + "/tags/list?last="@ + e + "&n="@ + decimal(n) + ">; rel=\"next\""@);
}

/// The catalogue is paged as tags are.
pub proof fn the_catalogue_shows_the_page_it_asked_for<B, C>(
    asked: Asked,
    config: ServerConfig,
    talk: Seq<Event<B, C>>,
    said: Result<Said<C>, Failure>,
    p: Paging,
    page: Page<String>,
)
    requires
        asked.method == Method::Get || asked.method == Method::Head,
        paging(asked.query, config) == Ok::<Paging, Failure>(p),
        lists_repositories(asked, config, talk, said),
        talk.len() > 0,
        talk[0] matches Event::Repositories(_, _, Ok(got)) && got == page,
    ensures
        talk.len() == 1,
        talk[0] matches Event::Repositories(last, limit, _) && last == p.last && limit == p.limit,
        said is Ok,
        (said->Ok_0).status == 200,
        (said->Ok_0).body matches BodyView::Json { document, quiet } && quiet == (asked.method
            == Method::Head) && document == (Written::Catalog {
            repositories: page.items.deep_view(),
        }),
        !page.more ==> first_value((said->Ok_0).headers, "link"@) is None,
        page.more && page.items@.len() > 0 && !p.explicit_zero && is_header_text(
            crate::server::pagination::link_text(
                "/v2/_catalog"@,
                page.items.deep_view().last(),
                p.limit as nat,
            ),
        ) ==> first_value((said->Ok_0).headers, "link"@) is Some,
{
    reveal_strlit("content-type");
    reveal_strlit("link");
    assert("content-type"@.len() == 12 && "link"@.len() == 4);
    reveal_with_fuel(first_value, 3);
    if said is Ok {
        lemma_front((said->Ok_0).headers);
    }
    assert(page.items.deep_view().len() == page.items@.len());
}

/// A referrers listing, where it is served, asks for the subject, the type and the
/// page that the request names, shows what it is given, and claims the filter exactly
/// where it was applied. Where it is not served, nothing is asked.
pub proof fn a_referrers_listing_asks_for_its_subject<B, C>(
    asked: Asked,
    config: ServerConfig,
    name: Seq<char>,
    subject: Digest,
    talk: Seq<Event<B, C>>,
    said: Result<Said<C>, Failure>,
    p: Paging,
)
    requires
        asked.method == Method::Get || asked.method == Method::Head,
        paging(asked.query, config) == Ok::<Paging, Failure>(p),
        p.last is None,
        lists_referrers(asked, config, name, subject.text(), talk, said),
    ensures
        !config.referrers_enabled ==> talk.len() == 0 && said is Err && (said->Err_0).status == 404,
        config.referrers_enabled ==> talk.len() == 1 && (talk[0] matches Event::Referrers(
            n,
            s,
            kind,
            last,
            limit,
            got,
        ) && n == name && s == subject && kind == asked.param("artifactType"@) && last is None
            && limit == p.limit && (match got {
            Ok(found) => said is Ok && (said->Ok_0).status == 200 && ((
            said->Ok_0).body matches BodyView::Json { document, quiet } && quiet == (asked.method
                == Method::Head) && document == (Written::Index { manifests: found.manifests@ }))
                && (found.filter_applied <==> says(
                said->Ok_0,
                "oci-filters-applied"@,
                "artifactType"@,
            )) && (found.next is None ==> first_value((said->Ok_0).headers, "link"@) is None),
            Err(e) => said == Err::<Said<C>, Failure>(ops_failure(e)),
        })),
{
    digests_are_requested_by_their_text(subject);
    reveal_strlit("content-type");
    reveal_strlit("link");
    reveal_strlit("oci-filters-applied");
    assert("content-type"@.len() == 12 && "link"@.len() == 4 && "oci-filters-applied"@.len() == 19);
    reveal_with_fuel(first_value, 4);
    if said is Ok {
        lemma_front((said->Ok_0).headers);
    }
}

// --- failures ---------------------------------------------------------------------

/// What a client is told of each failure: a status that says whose it is, and the
/// protocol's own code for it.
pub proof fn a_failure_is_told_in_the_protocols_words(e: OpsError)
    ensures
        e is RepoUnknown ==> ops_failure(e).status == 404 && ops_failure(e).body == Some(
            ErrorCode::NameUnknown,
        ),
        e is ManifestUnknown ==> ops_failure(e).status == 404 && ops_failure(e).body == Some(
            ErrorCode::ManifestUnknown,
        ),
        e is BlobUnknown ==> ops_failure(e).status == 404 && ops_failure(e).body == Some(
            ErrorCode::BlobUnknown,
        ),
        e is UploadUnknown ==> ops_failure(e).status == 404 && ops_failure(e).body == Some(
            ErrorCode::BlobUploadUnknown,
        ),
        e is OffsetMismatch ==> ops_failure(e).status == 416 && ops_failure(e).body == Some(
            ErrorCode::BlobUploadInvalid,
        ),
        e is DigestMismatch ==> ops_failure(e).status == 400 && ops_failure(e).body == Some(
            ErrorCode::DigestInvalid,
        ),
        e is SizeMismatch ==> ops_failure(e).status == 400 && ops_failure(e).body == Some(
            ErrorCode::SizeInvalid,
        ),
        e is BodyTooLarge ==> ops_failure(e).status == 413 && ops_failure(e).body == Some(
            ErrorCode::SizeInvalid,
        ),
        e is BodyIncomplete ==> ops_failure(e).status == 400 && ops_failure(e).body == Some(
            ErrorCode::BlobUploadInvalid,
        ),
        e is ManifestInvalid ==> ops_failure(e).status == 400 && ops_failure(e).body == Some(
            ErrorCode::ManifestInvalid,
        ),
        e is ManifestBlobUnknown ==> ops_failure(e).status == 400 && ops_failure(e).body == Some(
            ErrorCode::ManifestBlobUnknown,
        ),
        e is Internal ==> ops_failure(e).status == 500,
{
}

/// The protocol's own endpoint says that it is spoken here.
pub proof fn the_base_is_there<C>(method: Method)
    ensures
        method == Method::Get || method == Method::Head ==> (base_answer::<C>(method) matches Ok(
            said,
        ) && said.status == 200),
        method != Method::Get && method != Method::Head ==> (base_answer::<C>(method) matches Err(f)
            && f.status == 405),
{
}

// --- media types ------------------------------------------------------------------

/// A manifest is stored under the type that the request names, without parameters and
/// without the spaces around it; where the request names none, it is an image manifest.
pub proof fn a_manifest_is_stored_under_its_type(
    asked: Asked,
    kind: Seq<char>,
    parameters: Seq<char>,
)
    requires
        kind.len() > 0,
        !kind.contains(';'),
        !is_space(kind[0]),
        !is_space(kind.last()),
    ensures
        asked.header("content-type"@) == Some(kind) ==> pushed_type(asked) == kind,
        asked.header("content-type"@) == Some(kind + seq![';'] + parameters) ==> pushed_type(asked)
            == kind,
        asked.header("content-type"@) == Some(kind + seq![' ', ';'] + parameters) ==> pushed_type(
            asked,
        ) == kind,
        asked.header("content-type"@) is None ==> pushed_type(asked)
            == "application/vnd.oci.image.manifest.v1+json"@,
        asked.header("content-type"@) == Some(Seq::<char>::empty()) ==> pushed_type(asked)
            == "application/vnd.oci.image.manifest.v1+json"@,
{
    let with = kind + seq![';'] + parameters;
    let spaced = kind + seq![' ', ';'] + parameters;
    let n = kind.len() as int;
    let bare = kind + seq![' '];
    assert forall|k: int| 0 <= k < n implies kind[k] != ';' by {
        if kind[k] == ';' {
            assert(kind.contains(';'));
        }
    }
    lemma_first_index(kind, ';', n);
    lemma_first_index(with, ';', n);
    lemma_first_index(spaced, ';', n + 1);
    assert(kind.subrange(0, n) =~= kind);
    assert(with.subrange(0, n) =~= kind);
    assert(spaced.subrange(0, n + 1) =~= bare);
    lemma_trimmed_to(kind, 0, n);
    lemma_trimmed_to(bare, 0, n);
    assert(bare.subrange(0, n) =~= kind);
    let none = Seq::<char>::empty();
    lemma_first_index(none, ';', 0);
    assert(none.subrange(0, 0) =~= none);
    let (a, b) = trimming_takes_only_the_spaces_around(none);
}

/// What stands between spaces is what is left when they are trimmed.
proof fn lemma_trimmed_to(s: Seq<char>, a: int, b: int)
    requires
        0 <= a < b <= s.len(),
        forall|i: int| 0 <= i < a || b <= i < s.len() ==> is_space(#[trigger] s[i]),
        !is_space(s[a]),
        !is_space(s[b - 1]),
    ensures
        trimmed(s) == s.subrange(a, b),
{
    let (x, y) = trimming_takes_only_the_spaces_around(s);
    assert(x <= a && b <= y) by {
        if x > a {
            assert(is_space(s[a]));
        }
        if b > y {
            assert(is_space(s[b - 1]));
        }
    }
    if x < a {
        assert(is_space(s[x]));
    }
    if b < y {
        assert(is_space(s[y - 1]));
    }
}

// --- paths ------------------------------------------------------------------------

/// A path that leads nowhere and a name that is none are answered as errors, and the
/// registry is not asked anything.
pub proof fn what_leads_nowhere_asks_nothing<B, C>(
    asked: Asked,
    config: ServerConfig,
    id: Seq<char>,
    body: B,
    talk: Seq<Event<B, C>>,
    said: Result<Said<C>, Failure>,
)
    requires
        handles(asked, config, routed(asked.path), id, body, talk, said),
    ensures
        routed(asked.path) == Target::NoMatch ==> talk.len() == 0 && said is Err && (
        said->Err_0).status == 404 && (said->Err_0).body == Some(ErrorCode::NameUnknown) && (
        said->Err_0).detail == Some(asked.path),
        routed(asked.path) matches Target::InvalidName(name) ==> talk.len() == 0 && said is Err && (
        said->Err_0).status == 400 && (said->Err_0).body == Some(ErrorCode::NameInvalid) && (
        said->Err_0).detail == Some(name),
{
}

// --- referrers --------------------------------------------------------------------

/// A page of referrers goes on behind the digest that the request names, and points at
/// the page behind it where there is one. A cursor that is no digest is refused, and
/// nothing is asked.
#[verifier::rlimit(40)]
pub proof fn a_referrers_page_goes_on_where_it_was_left<B, C>(
    asked: Asked,
    config: ServerConfig,
    name: Seq<char>,
    subject: Digest,
    talk: Seq<Event<B, C>>,
    said: Result<Said<C>, Failure>,
    p: Paging,
    after: Digest,
)
    requires
        asked.method == Method::Get || asked.method == Method::Head,
        config.referrers_enabled,
        paging(asked.query, config) == Ok::<Paging, Failure>(p),
        p.last is Some,
        lists_referrers(asked, config, name, subject.text(), talk, said),
    ensures
        digest_request(p.last->0) is Err ==> talk.len() == 0 && said is Err && (said->Err_0).status
            == 400 && (said->Err_0).body == Some(ErrorCode::DigestInvalid),
        p.last == Some(after.text()) ==> talk.len() == 1 && (talk[0] matches Event::Referrers(
            n,
            s,
            kind,
            last,
            limit,
            got,
        ) && n == name && s == subject && kind == asked.param("artifactType"@) && last == Some(after)
            && limit == p.limit && (got matches Ok(found) ==> (found.next matches Some(next) ==> (
        is_header_text(referrers_link(name, subject, kind, next, p.limit as nat)) ==> said is Ok
            && says(
            said->Ok_0,
            "link"@,
            referrers_link(name, subject, kind, next, p.limit as nat),
        ))))),
{
    digests_are_requested_by_their_text(subject);
    digests_are_requested_by_their_text(after);
    reveal_strlit("content-type");
    reveal_strlit("link");
    reveal_strlit("oci-filters-applied");
    assert("content-type"@.len() == 12 && "link"@.len() == 4 && "oci-filters-applied"@.len() == 19);
    reveal_with_fuel(first_value, 4);
    if said is Ok {
        lemma_front((said->Ok_0).headers);
    }
}

// --- discovery --------------------------------------------------------------------

/// A discovery page is as large as asked, between one row and a hundred, and a quarter
/// of that where nothing is asked; it begins behind the row that is named. What is no
/// number is refused.
pub proof fn a_discovery_page_is_as_large_as_asked(asked: Asked, n: nat)
    requires
        n <= usize::MAX,
    ensures
        asked.param("n"@) is None ==> page_asked(asked) is Ok && (page_asked(asked)->Ok_0).0 == 25,
        asked.param("n"@) == Some(decimal(n)) && 1 <= n <= 100 ==> page_asked(asked) is Ok && (
        page_asked(asked)->Ok_0).0 == n,
        asked.param("n"@) == Some(decimal(n)) && n > 100 ==> page_asked(asked) is Ok && (page_asked(
            asked,
        )->Ok_0).0 == 100,
        asked.param("n"@) == Some(decimal(0)) ==> page_asked(asked) is Ok && (page_asked(
            asked,
        )->Ok_0).0 == 1,
        (asked.param("n"@) matches Some(raw) && parsed_unsigned(raw, usize::MAX as nat) is None)
            ==> page_asked(asked) is Err && (page_asked(asked)->Err_0).status == 400,
        page_asked(asked) is Ok && (asked.param("last"@) matches Some(l) && l.len() > 0) ==> (
        page_asked(asked)->Ok_0).1 == asked.param("last"@),
        page_asked(asked) is Ok && asked.param("last"@) is None ==> (page_asked(
            asked,
        )->Ok_0).1 is None,
{
    numbers_read_back(n, usize::MAX as nat);
    numbers_read_back(0, usize::MAX as nat);
}

/// A discovery request asks for what its path and its query name and for nothing else,
/// and shows what it is given: the rows as they came, and, where there are more, the last
/// row as the place to go on behind.
#[verifier::rlimit(40)]
pub proof fn a_discovery_request_shows_what_it_asked_for<B, C>(
    asked: Asked,
    endpoint: ApiEndpoint,
    talk: Seq<Event<B, C>>,
    said: Result<Said<C>, Failure>,
    n: nat,
    after: Option<Seq<char>>,
)
    requires
        asked.method == Method::Get || asked.method == Method::Head,
        handles_api(asked, endpoint, talk, said),
        page_asked(asked) == Ok::<(nat, Option<Seq<char>>), Failure>((n, after)),
    ensures
        endpoint is Repositories ==> talk.len() == 1 && (talk[0] matches Event::RepositorySummaries(
            prefix,
            last,
            limit,
            got,
        ) && last == after && limit == n && (asked.param("q"@) is None ==> prefix == Seq::<
            char,
        >::empty()) && (asked.param("q"@) is Some ==> asked.param("q"@) == Some(prefix)) && (
        got matches Ok(page) ==> shows(
            asked,
            said,
            Written::Repositories {
                repositories: page.items@,
                next: if page.more && page.items@.len() > 0 {
                    Some(page.items@.last().name@)
                } else {
                    None
                },
            },
        ))),
        endpoint matches ApiEndpoint::Repository { name } ==> talk.len() == 1 && (
        talk[0] matches Event::RepositoryDetail(repo, got) && repo == name@ && (got matches Ok(
            detail,
        ) ==> shows(asked, said, Written::Repository(detail)))),
        endpoint matches ApiEndpoint::Tags { name } ==> talk.len() == 1 && (
        talk[0] matches Event::TagDetails(repo, last, limit, got) && repo == name@ && last == after
            && limit == n && (got matches Ok(page) ==> shows(
            asked,
            said,
            Written::TagRows {
                tags: page.items@,
                next: if page.more && page.items@.len() > 0 {
                    Some(page.items@.last().name@)
                } else {
                    None
                },
            },
        ))),
        endpoint matches ApiEndpoint::Manifests { name } ==> (after is None ==> talk.len() == 1 && (
        talk[0] matches Event::ManifestDetails(repo, last, limit, got) && repo == name@
            && last is None && limit == n && (got matches Ok(page) ==> shows(
            asked,
            said,
            Written::ManifestRows {
                manifests: page.items@,
                next: if page.more && page.items@.len() > 0 {
                    Some(page.items@.last().digest.text())
                } else {
                    None
                },
            },
        )))),
        endpoint matches ApiEndpoint::Manifest { name, reference } ==> (is_tag(reference@)
            && !reference@.contains(':') ==> talk.len() == 1 && (
        talk[0] matches Event::ManifestDetail(repo, which, got) && repo == name@ && which
            == Referred::Tag(reference@) && (got matches Ok(info) ==> shows(
            asked,
            said,
            Written::Manifest(info),
        )))),
        endpoint matches ApiEndpoint::TagHistory { name, reference } ==> (is_tag(reference@)
            && !reference@.contains(':') && asked.param("before"@) is None ==> talk.len() == 1 && (
        talk[0] matches Event::TagHistory(repo, which, before, last, limit, got) && repo == name@
            && which == Referred::Tag(reference@) && before is None && last == after && limit == n
            && (got matches Ok(found) ==> shows(
            asked,
            said,
            Written::TagHistory { events: found.0@, next: found.1 },
        )))),
{
}

/// An answer shows a document, and where only its head was asked for keeps the body back.
pub open spec fn shows<C>(
    asked: Asked,
    said: Result<Said<C>, Failure>,
    document: Written,
) -> bool {
    said matches Ok(answer) && answer.status == 200 && answer.body == (BodyView::<C>::Json {
        document,
        quiet: asked.method == Method::Head,
    })
}

/// A manifest that is asked for by digest is asked for by that digest, and a page of
/// manifests goes on behind the digest that is named.
pub proof fn a_discovery_request_goes_by_digest<B, C>(
    asked: Asked,
    endpoint: ApiEndpoint,
    talk: Seq<Event<B, C>>,
    said: Result<Said<C>, Failure>,
    n: nat,
    after: Option<Seq<char>>,
    d: Digest,
)
    requires
        asked.method == Method::Get || asked.method == Method::Head,
        handles_api(asked, endpoint, talk, said),
        page_asked(asked) == Ok::<(nat, Option<Seq<char>>), Failure>((n, after)),
    ensures
        endpoint matches ApiEndpoint::Manifest { name, reference } ==> (reference@ == d.text()
            ==> talk.len() == 1 && (talk[0] matches Event::ManifestDetail(repo, which, _) && repo
            == name@ && which == Referred::Digest(d))),
        endpoint matches ApiEndpoint::Manifests { name } ==> (after == Some(d.text())
            ==> talk.len() == 1 && (talk[0] matches Event::ManifestDetails(repo, last, limit, _)
            && repo == name@ && last == Some(d) && limit == n)),
        endpoint matches ApiEndpoint::TagHistory { name, reference } ==> (reference@ == d.text()
            && asked.param("before"@) is None ==> talk.len() == 1 && (
        talk[0] matches Event::TagHistory(repo, which, before, last, limit, _) && repo == name@
            && which == Referred::Digest(d) && before is None && last == after && limit == n)),
{
    digests_are_requested_by_their_text(d);
    reveal_strlit("sha256");
    reveal_strlit("sha512");
    assert(d.text()[6] == ':');
    assert(d.text().contains(':'));
}

/// A history is asked for up to the instant that the request names.
pub proof fn a_history_stops_at_its_instant<B, C>(
    asked: Asked,
    endpoint: ApiEndpoint,
    talk: Seq<Event<B, C>>,
    said: Result<Said<C>, Failure>,
    at: u64,
)
    requires
        asked.method == Method::Get || asked.method == Method::Head,
        endpoint matches ApiEndpoint::TagHistory { reference, .. } && is_tag(reference@)
            && !reference@.contains(':'),
        handles_api(asked, endpoint, talk, said),
        page_asked(asked) is Ok,
        asked.param("before"@) == Some(decimal(at as nat)),
    ensures
        talk.len() == 1,
        talk[0] matches Event::TagHistory(_, _, before, _, _, _) && before == Some(at),
{
    numbers_read_back(at as nat, u64::MAX as nat);
}

// --- sessions ---------------------------------------------------------------------

/// A session that was opened stands at nothing, and says how small a chunk may be exactly
/// where the registry has a smallest.
#[verifier::rlimit(40)]
pub proof fn a_new_session_says_where_it_stands<B, C>(
    asked: Asked,
    config: ServerConfig,
    name: Seq<char>,
    id: Seq<char>,
    body: B,
    talk: Seq<Event<B, C>>,
    said: Result<Said<C>, Failure>,
)
    requires
        asked.method == Method::Post,
        asked.param("mount"@) is None,
        asked.param("digest"@) is None,
        asked.param("digest-algorithm"@) is None,
        creates(asked, config, name, id, body, talk, said),
        said is Ok,
    ensures
        says(said->Ok_0, "range"@, "0-0"@),
        config.chunk_min_length matches Some(least) ==> says(
            said->Ok_0,
            "oci-chunk-min-length"@,
            decimal(least as nat),
        ),
        config.chunk_min_length is None ==> first_value(
            (said->Ok_0).headers,
            "oci-chunk-min-length"@,
        ) is None,
{
    reveal_strlit("location");
    reveal_strlit("range");
    reveal_strlit("content-length");
    reveal_strlit("oci-chunk-min-length");
    assert("location"@.len() == 8 && "range"@.len() == 5 && "content-length"@.len() == 14
        && "oci-chunk-min-length"@.len() == 20);
    reveal_strlit("0-");
    reveal_strlit("0-0");
    assert("0-"@ + decimal(0) =~= "0-0"@);
    reveal_with_fuel(first_value, 5);
    lemma_front((said->Ok_0).headers);
}

// --- refusals ---------------------------------------------------------------------

/// A reference that is none is refused before anything is asked: what was offered as a
/// digest as a bad digest, and a bad tag as naming nothing, or, on a push, as an invalid
/// manifest.
pub proof fn a_bad_reference_asks_nothing<B, C>(
    asked: Asked,
    config: ServerConfig,
    name: Seq<char>,
    reference: Seq<char>,
    body: B,
    talk: Seq<Event<B, C>>,
    said: Result<Said<C>, Failure>,
)
    requires
        handles_manifest(asked, config, name, reference, body, talk, said),
    ensures
        !reference.contains(':') && !is_tag(reference) ==> talk.len() == 0 && said is Err,
        !reference.contains(':') && !is_tag(reference) && asked.method != Method::Put ==> (
        said->Err_0).status == 404 && (said->Err_0).body == Some(ErrorCode::ManifestUnknown),
        !reference.contains(':') && !is_tag(reference) && asked.method == Method::Put ==> (
        said->Err_0).status == 400 && (said->Err_0).body == Some(ErrorCode::ManifestInvalid),
        reference.contains(':') && digest_request(reference) is Err ==> talk.len() == 0 && said is Err
            && (said->Err_0).status == 400 && (said->Err_0).body == Some(ErrorCode::DigestInvalid),
{
}

/// A blob is asked for by a digest or not at all.
pub proof fn a_bad_digest_asks_nothing<B, C>(
    asked: Asked,
    name: Seq<char>,
    digest: Seq<char>,
    talk: Seq<Event<B, C>>,
    said: Result<Said<C>, Failure>,
)
    requires
        handles_blob(asked, name, digest, talk, said),
        digest_request(digest) is Err,
    ensures
        talk.len() == 0,
        said is Err && (said->Err_0).status == 400 && (said->Err_0).body == Some(
            ErrorCode::DigestInvalid,
        ),
{
}

/// A manifest that is too large is refused, unread where the request says so itself, and
/// is not stored.
pub proof fn a_manifest_too_large_is_refused<B, C>(
    asked: Asked,
    config: ServerConfig,
    name: Seq<char>,
    reference: Seq<char>,
    body: B,
    talk: Seq<Event<B, C>>,
    said: Result<Said<C>, Failure>,
    n: nat,
)
    requires
        asked.method == Method::Put,
        is_tag(reference) && !reference.contains(':'),
        handles_manifest(asked, config, name, reference, body, talk, said),
        n <= usize::MAX,
    ensures
        asked.header("content-length"@) == Some(decimal(n)) && n > config.max_manifest_bytes
            ==> talk.len() == 0 && said is Err && (said->Err_0).status == 413,
        talk.len() > 0 && (talk[0] matches Event::ReadWhole(_, _, None)) ==> talk.len() == 1
            && said is Err && (said->Err_0).status == 413,
        asked.header("content-length"@) == Some(decimal(n)) && n <= config.max_manifest_bytes
            ==> talk.len() > 0,
{
    numbers_read_back(n, usize::MAX as nat);
}

/// A push with too many tags is refused as such, and one with a bad tag names it.
pub proof fn a_refused_tag_is_told<B, C>(
    asked: Asked,
    config: ServerConfig,
    name: Seq<char>,
    reference: Seq<char>,
    body: B,
    talk: Seq<Event<B, C>>,
    said: Result<Said<C>, Failure>,
)
    requires
        asked.method == Method::Put,
        is_tag(reference) && !reference.contains(':'),
        handles_manifest(asked, config, name, reference, body, talk, said),
        talk.len() > 0,
        talk[0] matches Event::ReadWhole(_, _, Some(_)),
    ensures
        values_of(asked.query, "tag"@).len() > config.max_tag_params ==> said is Err && (
        said->Err_0).status == 414,
        0 < values_of(asked.query, "tag"@).len() <= config.max_tag_params && !is_tag(
            values_of(asked.query, "tag"@)[0],
        ) ==> said is Err && (said->Err_0).status == 400 && (said->Err_0).detail == Some(
            values_of(asked.query, "tag"@)[0],
        ),
{
}

/// A push is acknowledged with the subject that the manifest has, if it has one, and with
/// each of the tags it was given, and no other.
#[verifier::rlimit(40)]
pub proof fn a_push_is_acknowledged_in_full<B, C>(
    asked: Asked,
    config: ServerConfig,
    name: Seq<char>,
    reference: Seq<char>,
    body: B,
    talk: Seq<Event<B, C>>,
    said: Result<Said<C>, Failure>,
    put: ManifestPut,
    i: int,
    value: Seq<char>,
)
    requires
        asked.method == Method::Put,
        handles_manifest(asked, config, name, reference, body, talk, said),
        talk.len() == 2,
        talk[1] matches Event::PutManifest(_, _, _, _, _, done) && done == Ok::<
            ManifestPut,
            OpsError,
        >(put),
    ensures
        said is Ok && (said->Ok_0).status == 201,
        put.subject matches Some(subject) ==> (said->Ok_0).headers.contains(
            ("oci-subject"@, subject.text()),
        ),
        put.subject is None ==> !(said->Ok_0).headers.contains(("oci-subject"@, value)),
        0 <= i < put.tags@.len() && is_header_text(put.tags@[i]@) ==> (
        said->Ok_0).headers.contains(("oci-tag"@, put.tags@[i]@)),
        (said->Ok_0).headers.contains(("oci-tag"@, value)) ==> exists|k: int|
            0 <= k < put.tags@.len() && (value == (#[trigger] put.tags@[k])@ || !is_header_text(
                put.tags@[k]@,
            )),
{
    reveal_strlit("location");
    reveal_strlit("docker-content-digest");
    reveal_strlit("content-length");
    reveal_strlit("oci-subject");
    reveal_strlit("oci-tag");
    assert("location"@.len() == 8 && "docker-content-digest"@.len() == 21
        && "content-length"@.len() == 14 && "oci-subject"@.len() == 11 && "oci-tag"@.len() == 7);
    let h = (said->Ok_0).headers;
    let tags = put.tags.deep_view();
    let n: int = if put.subject is Some {
        3
    } else {
        2
    };
    assert(h.len() == n + tags.len() + 1);
    assert(forall|k: int| 0 <= k < tags.len() ==> tags[k] == (#[trigger] put.tags@[k])@);
    if let Some(subject) = put.subject {
        assert(h[2] == ("oci-subject"@, subject.text()));
    }
    if 0 <= i < put.tags@.len() && is_header_text(put.tags@[i]@) {
        assert(h[n + i] == ("oci-tag"@, put.tags@[i]@));
    }
    if h.contains(("oci-tag"@, value)) {
        let k = choose|k: int| 0 <= k < h.len() && h[k] == ("oci-tag"@, value);
        assert(n <= k < n + tags.len());
        assert(put.tags@[k - n]@ == tags[k - n]);
    }
    if put.subject is None && h.contains(("oci-subject"@, value)) {
        let k = choose|k: int| 0 <= k < h.len() && h[k] == ("oci-subject"@, value);
        if 2 <= k < 2 + tags.len() {
            assert(h[k].0 == "oci-tag"@);
        }
    }
}

/// Every answer names the version that is spoken, and naming it changes no other header.
pub proof fn every_answer_names_the_version(
    headers: Seq<(Seq<char>, Seq<char>)>,
    name: Seq<char>,
)
    ensures
        first_value(stamped(headers), API_VERSION_HEADER@) is Some,
        first_value(headers, API_VERSION_HEADER@) is None ==> first_value(
            stamped(headers),
            API_VERSION_HEADER@,
        ) == Some("registry/2.0"@),
        name != API_VERSION_HEADER@ ==> first_value(stamped(headers), name) == first_value(
            headers,
            name,
        ),
        first_value(headers, API_VERSION_HEADER@) is Some ==> stamped(headers) == headers,
{
    lemma_first_value_of_push(headers, (API_VERSION_HEADER@, "registry/2.0"@), name);
    lemma_first_value_of_push(
        headers,
        (API_VERSION_HEADER@, "registry/2.0"@),
        API_VERSION_HEADER@,
    );
}

proof fn lemma_first_value_of_push(
    pairs: Seq<(Seq<char>, Seq<char>)>,
    p: (Seq<char>, Seq<char>),
    key: Seq<char>,
)
    ensures
        first_value(pairs.push(p), key) == (if first_value(pairs, key) is Some {
            first_value(pairs, key)
        } else if p.0 == key {
            Some(p.1)
        } else {
            None
        }),
    decreases pairs.len(),
{
    reveal_with_fuel(first_value, 2);
    if pairs.len() > 0 {
        assert(pairs.push(p).drop_first() =~= pairs.drop_first().push(p));
        lemma_first_value_of_push(pairs.drop_first(), p, key);
    } else {
        assert(pairs.push(p).drop_first() =~= pairs);
    }
}

} // verus!
