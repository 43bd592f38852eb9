//! The `/v2/` surface, driven in process over a registry in memory.

use summ::digest::Digest;
use summ::server::app::{surface, Surface};
use summ::server::config::ServerConfig;
use summ::server::error::{ApiError, ErrorCode};
use summ::server::handlers::api;
use summ::server::handlers::dispatch::{dispatch, fallback, serve};
use summ::server::http::{stamp, Ctx, Document, Handled, Method, ReplyBody, Request};
use summ::server::memory::MemoryRegistry;
use summ::server::query;
use summ::server::reference::Reference;
use summ::server::seam::{
    HistoryCursor, ManifestInfo, OpsError, Page, RepoDetail, RepoSummary, TagEventInfo, TagInfo,
    Tally,
};
use summ::server::ui;
use summ::storage::algorithm::DigestAlgorithm;
use summ::storage::hasher::digest_of;

// ---------------------------------------------------------------- harness --

struct Harness {
    config: ServerConfig,
    registry: MemoryRegistry,
    sessions: u32,
}

struct Reply {
    status: u16,
    headers: Vec<(String, String)>,
    body: Vec<u8>,
    document: Option<Document>,
    error: Option<(ErrorCode, String, Option<String>)>,
}

fn show(handled: Handled<Vec<u8>>) -> Reply {
    match handled {
        Ok(reply) => {
            let (body, document) = match reply.body {
                ReplyBody::Empty => (Vec::new(), None),
                ReplyBody::Bytes(b) => (b, None),
                ReplyBody::Blob(b) => (b, None),
                ReplyBody::Json { document, .. } => (Vec::new(), Some(document)),
            };
            Reply {
                status: reply.status,
                headers: stamp(reply.headers),
                body,
                document,
                error: None,
            }
        }
        Err(e) => Reply {
            status: e.status,
            headers: stamp(e.headers),
            body: Vec::new(),
            document: None,
            error: e.body.map(|code| (code, e.message, e.detail)),
        },
    }
}

fn ask(method: Method, uri: &str, headers: Vec<(&str, String)>) -> Request {
    let (path, q) = match uri.split_once('?') {
        Some((path, q)) => (path, q),
        None => (uri, ""),
    };
    Request {
        method,
        path: path.to_owned(),
        query: query::pairs(q),
        headers: headers
            .into_iter()
            .map(|(k, v)| (k.to_owned(), v))
            .collect(),
    }
}

impl Harness {
    fn new() -> Self {
        Self::with_config(ServerConfig::default())
    }

    fn with_config(config: ServerConfig) -> Self {
        Harness {
            config,
            registry: MemoryRegistry::new(),
            sessions: 0,
        }
    }

    fn request(&mut self, method: Method, uri: &str, headers: Vec<(&str, String)>, body: Vec<u8>) -> Reply {
        let request = ask(method, uri, headers);
        let ctx = Ctx {
            request: &request,
            config: &self.config,
        };
        match surface(&request.path) {
            Surface::Registry => {
                self.sessions += 1;
                let id = format!("session-{}", self.sessions);
                show(dispatch(&ctx, &mut self.registry, &id, body))
            }
            Surface::Discovery => show(Err(fallback(&request.path))),
            Surface::Pages => {
                let file = ui::asset(&request.path);
                show(Ok(ui::serve(method, file, b"<html>".to_vec())))
            }
        }
    }

    fn get(&mut self, uri: &str) -> Reply {
        self.request(Method::Get, uri, Vec::new(), Vec::new())
    }

    fn head(&mut self, uri: &str) -> Reply {
        self.request(Method::Head, uri, Vec::new(), Vec::new())
    }

    fn delete(&mut self, uri: &str) -> Reply {
        self.request(Method::Delete, uri, Vec::new(), Vec::new())
    }

    fn tags(&mut self, uri: &str) -> Vec<String> {
        match self.get(uri).document {
            Some(Document::Tags { tags, .. }) => tags,
            other => panic!("expected tags, got {other:?}"),
        }
    }
}

impl Reply {
    fn header(&self, name: &str) -> Option<&str> {
        self.headers
            .iter()
            .find(|(k, _)| k == name)
            .map(|(_, v)| v.as_str())
    }

    fn assert_error(&self, status: u16, code: ErrorCode) {
        assert_eq!(self.status, status, "unexpected status");
        let (named, message, _) = self.error.as_ref().expect("an error body");
        assert_eq!(named.as_str(), code.as_str());
        assert!(!message.is_empty(), "`message` should be human readable");
    }
}

fn sha256_hex(bytes: &[u8]) -> String {
    digest_of(DigestAlgorithm::Sha256, bytes).unwrap().to_text()
}

fn sha512_hex(bytes: &[u8]) -> String {
    digest_of(DigestAlgorithm::Sha512, bytes).unwrap().to_text()
}

const IMAGE_MANIFEST: &str = "application/vnd.oci.image.manifest.v1+json";

/// A manifest with a field outside the schema, to prove that nothing validates it
/// and the bytes round-trip untouched.
fn manifest_bytes() -> Vec<u8> {
    br#"{"schemaVersion":2,"mediaType":"application/vnd.oci.image.manifest.v1+json","config":{"mediaType":"application/vnd.oci.image.config.v1+json","digest":"sha256:0000000000000000000000000000000000000000000000000000000000000000","size":2},"layers":[],"x-unknown-field":{"kept":true}}"#
        .to_vec()
}

fn typed() -> Vec<(&'static str, String)> {
    vec![("content-type", IMAGE_MANIFEST.to_owned())]
}

// ------------------------------------------------------------------- base --

#[test]
fn ping_returns_200_and_an_empty_object() {
    let mut h = Harness::new();
    let reply = h.get("/v2/");
    assert_eq!(reply.status, 200);
    assert_eq!(reply.header("content-type"), Some("application/json"));
    assert_eq!(reply.header("content-length"), Some("2"));
    assert_eq!(&reply.body[..], b"{}");
    assert_eq!(
        reply.header("docker-distribution-api-version"),
        Some("registry/2.0")
    );

    // `/v2` without the trailing slash reaches the same endpoint; clients send
    // both.
    assert_eq!(h.get("/v2").status, 200);
}

#[test]
fn ping_head_carries_content_length_with_no_body() {
    let mut h = Harness::new();
    let reply = h.head("/v2/");
    assert_eq!(reply.status, 200);
    assert_eq!(reply.header("content-length"), Some("2"));
    assert!(reply.body.is_empty());
}

// ------------------------------------------------------------ error model --

#[test]
fn every_error_code_has_a_status_and_the_spec_body_shape() {
    let cases = [
        (ErrorCode::BlobUnknown, 404),
        (ErrorCode::BlobUploadInvalid, 400),
        (ErrorCode::BlobUploadUnknown, 404),
        (ErrorCode::DigestInvalid, 400),
        (ErrorCode::ManifestBlobUnknown, 400),
        (ErrorCode::ManifestInvalid, 400),
        (ErrorCode::ManifestUnknown, 404),
        (ErrorCode::NameInvalid, 400),
        (ErrorCode::NameUnknown, 404),
        (ErrorCode::SizeInvalid, 400),
        (ErrorCode::Unauthorized, 401),
        (ErrorCode::Denied, 403),
        (ErrorCode::Unsupported, 405),
        (ErrorCode::TooManyRequests, 429),
        (ErrorCode::PaginationNumberInvalid, 400),
    ];

    for (code, status) in cases {
        let reply = show(Err(ApiError::new(code).with_detail("detail")));
        assert_eq!(reply.status, status, "{}", code.as_str());
        reply.assert_error(status, code);
        let text = code.as_str();
        assert!(text.bytes().all(|b| b.is_ascii_uppercase() || b == b'_'));
        assert_eq!(reply.error.unwrap().2.as_deref(), Some("detail"));
    }
}

#[test]
fn an_unknown_path_and_an_invalid_name_are_distinguished() {
    let mut h = Harness::new();

    // The shape matched, the name did not: `NAME_INVALID`, not a bare 404.
    h.get("/v2/UPPERCASE/tags/list")
        .assert_error(400, ErrorCode::NameInvalid);
    h.get("/v2/trailing-/tags/list")
        .assert_error(400, ErrorCode::NameInvalid);

    // No endpoint has this shape at all.
    h.get("/v2/foo").assert_error(404, ErrorCode::NameUnknown);
    h.get("/api/v1/nothing")
        .assert_error(404, ErrorCode::NameUnknown);

    // Outside `/v2/` and `/api/` the answer is the web UI, not an error.
    let response = h.get("/notv2/foo");
    assert_eq!(response.status, 200);
    assert_eq!(
        response.header("content-type"),
        Some("text/html; charset=utf-8")
    );
}

#[test]
fn a_name_longer_than_255_bytes_is_rejected() {
    let mut h = Harness::new();
    let long = "a".repeat(256);
    h.get(&format!("/v2/{long}/tags/list"))
        .assert_error(400, ErrorCode::NameInvalid);
}

#[test]
fn an_unsupported_method_is_405_with_allow() {
    let mut h = Harness::new();
    let reply = h.request(Method::Post, "/v2/demo/tags/list", Vec::new(), Vec::new());
    reply.assert_error(405, ErrorCode::Unsupported);
    assert_eq!(reply.header("allow"), Some("GET, HEAD"));
    for (uri, allow) in [
        ("/v2/", "GET, HEAD"),
        ("/v2/_catalog", "GET, HEAD"),
        ("/v2/demo/manifests/v1", "GET, HEAD, PUT, DELETE"),
        ("/v2/demo/blobs/uploads/", "POST"),
        ("/v2/demo/blobs/uploads/x", "GET, PATCH, PUT, DELETE"),
    ] {
        let reply = h.request(Method::Other, uri, Vec::new(), Vec::new());
        reply.assert_error(405, ErrorCode::Unsupported);
        assert_eq!(reply.header("allow"), Some(allow));
    }
    let blob = format!("/v2/demo/blobs/{}", sha256_hex(b""));
    let reply = h.request(Method::Put, &blob, Vec::new(), Vec::new());
    assert_eq!(reply.header("allow"), Some("GET, HEAD, DELETE"));
}

// -------------------------------------------------------------- manifests --

#[test]
fn a_manifest_round_trips_under_a_multi_component_name() {
    let mut h = Harness::new();
    let body = manifest_bytes();
    let digest = sha256_hex(&body);

    let put = h.request(
        Method::Put,
        "/v2/homebrew/core/hello/manifests/v1",
        typed(),
        body.clone(),
    );
    assert_eq!(put.status, 201);
    assert_eq!(
        put.header("location"),
        Some(format!("/v2/homebrew/core/hello/manifests/{digest}").as_str())
    );
    assert_eq!(put.header("docker-content-digest"), Some(digest.as_str()));

    let get = h.get("/v2/homebrew/core/hello/manifests/v1");
    assert_eq!(get.status, 200);
    assert_eq!(&get.body[..], &body[..], "manifests are stored byte-exact");
    assert_eq!(get.header("content-type"), Some(IMAGE_MANIFEST));
    assert_eq!(get.header("docker-content-digest"), Some(digest.as_str()));
    assert_eq!(
        get.header("content-length"),
        Some(body.len().to_string().as_str())
    );

    // Reachable by digest as well as by tag.
    let by_digest = h.get(&format!("/v2/homebrew/core/hello/manifests/{digest}"));
    assert_eq!(by_digest.status, 200);
    assert_eq!(&by_digest.body[..], &body[..]);
}

#[test]
fn manifest_head_carries_content_length_and_an_empty_body() {
    let mut h = Harness::new();
    let body = manifest_bytes();
    let digest = h
        .registry
        .seed_manifest("demo/app", Some("v1"), IMAGE_MANIFEST, &body);

    let reply = h.head("/v2/demo/app/manifests/v1");
    assert_eq!(reply.status, 200);
    assert_eq!(
        reply.header("content-length"),
        Some(body.len().to_string().as_str()),
        "HEAD MUST report the real size"
    );
    assert!(reply.body.is_empty(), "HEAD MUST have an empty body");
    assert_eq!(
        reply.header("docker-content-digest"),
        Some(digest.to_text().as_str())
    );
    assert_eq!(reply.header("content-type"), Some(IMAGE_MANIFEST));
}

#[test]
fn a_content_type_parameter_does_not_survive_the_round_trip() {
    let mut h = Harness::new();
    let put = h.request(
        Method::Put,
        "/v2/demo/app/manifests/v1",
        vec![("content-type", format!("{IMAGE_MANIFEST}; charset=utf-8"))],
        manifest_bytes(),
    );
    assert_eq!(put.status, 201);
    let get = h.get("/v2/demo/app/manifests/v1");
    assert_eq!(get.header("content-type"), Some(IMAGE_MANIFEST));
}

#[test]
fn a_push_without_a_type_is_an_image_manifest() {
    let mut h = Harness::new();
    h.request(Method::Put, "/v2/demo/app/manifests/v1", Vec::new(), manifest_bytes());
    assert_eq!(
        h.get("/v2/demo/app/manifests/v1").header("content-type"),
        Some(IMAGE_MANIFEST)
    );
    h.request(
        Method::Put,
        "/v2/demo/app/manifests/v2",
        vec![("content-type", "text/x".to_owned())],
        b"other".to_vec(),
    );
    assert_eq!(
        h.get("/v2/demo/app/manifests/v2").header("content-type"),
        Some("text/x")
    );
}

#[test]
fn a_manifest_is_served_regardless_of_accept() {
    let mut h = Harness::new();
    h.registry
        .seed_manifest("demo/app", Some("v1"), IMAGE_MANIFEST, &manifest_bytes());
    let reply = h.request(
        Method::Get,
        "/v2/demo/app/manifests/v1",
        vec![("accept", "text/plain".to_owned())],
        Vec::new(),
    );
    assert_eq!(
        reply.status, 200,
        "an Accept mismatch must not become a 404"
    );
}

#[test]
fn a_colon_bearing_reference_is_a_digest_error_not_a_tag_miss() {
    let mut h = Harness::new();
    h.request(
        Method::Put,
        "/v2/demo/app/manifests/sha256:baddigeststring",
        typed(),
        manifest_bytes(),
    )
    .assert_error(400, ErrorCode::DigestInvalid);

    h.get("/v2/demo/app/manifests/sha256:baddigeststring")
        .assert_error(400, ErrorCode::DigestInvalid);

    // Uppercase hex is outside the digest grammar even though it would parse.
    let upper = format!("sha256:{}", "AB".repeat(32));
    h.get(&format!("/v2/demo/app/manifests/{upper}"))
        .assert_error(400, ErrorCode::DigestInvalid);
}

#[test]
fn a_tag_outside_the_grammar_is_rejected_by_method() {
    let mut h = Harness::new();
    // On a read, an unrepresentable reference cannot name anything.
    h.get("/v2/demo/app/manifests/-bad")
        .assert_error(404, ErrorCode::ManifestUnknown);
    // On a write, the request is definitively invalid.
    h.request(
        Method::Put,
        "/v2/demo/app/manifests/-bad",
        typed(),
        manifest_bytes(),
    )
    .assert_error(400, ErrorCode::ManifestInvalid);
}

#[test]
fn pushing_by_digest_verifies_the_content() {
    let mut h = Harness::new();
    let wrong = sha256_hex(b"something else");
    h.request(
        Method::Put,
        &format!("/v2/demo/app/manifests/{wrong}"),
        typed(),
        manifest_bytes(),
    )
    .assert_error(400, ErrorCode::DigestInvalid);
}

#[test]
fn an_oversized_manifest_is_413() {
    let mut h = Harness::with_config(ServerConfig {
        max_manifest_bytes: 64,
        ..ServerConfig::default()
    });
    let big = vec![b'x'; 128];
    let reply = h.request(
        Method::Put,
        "/v2/demo/app/manifests/v1",
        vec![
            ("content-type", IMAGE_MANIFEST.to_owned()),
            ("content-length", big.len().to_string()),
        ],
        big.clone(),
    );
    reply.assert_error(413, ErrorCode::ManifestInvalid);
    assert_eq!(reply.error.unwrap().2.as_deref(), Some("limit is 64 bytes"));
    // A body that declared nothing is refused all the same.
    h.request(Method::Put, "/v2/demo/app/manifests/v1", typed(), big)
        .assert_error(413, ErrorCode::ManifestInvalid);
}

#[test]
fn tag_parameters_are_applied_and_echoed() {
    let mut h = Harness::new();
    let body = manifest_bytes();
    let digest = sha256_hex(&body);

    let put = h.request(
        Method::Put,
        &format!("/v2/demo/app/manifests/{digest}?tag=a&tag=b"),
        typed(),
        body,
    );
    assert_eq!(put.status, 201);
    let echoed: Vec<&str> = put
        .headers
        .iter()
        .filter(|(k, _)| k == "oci-tag")
        .map(|(_, v)| v.as_str())
        .collect();
    assert_eq!(echoed, vec!["a", "b"]);

    assert_eq!(h.tags("/v2/demo/app/tags/list"), ["a", "b"]);
}

#[test]
fn a_tag_parameter_outside_the_grammar_is_refused() {
    let mut h = Harness::new();
    let reply = h.request(
        Method::Put,
        "/v2/demo/app/manifests/v1?tag=ok&tag=-no&tag=.no",
        typed(),
        manifest_bytes(),
    );
    reply.assert_error(400, ErrorCode::ManifestInvalid);
    assert_eq!(reply.error.unwrap().2.as_deref(), Some("-no"));
}

#[test]
fn too_many_tag_parameters_is_414() {
    let mut h = Harness::with_config(ServerConfig {
        max_tag_params: 2,
        ..ServerConfig::default()
    });
    let body = manifest_bytes();
    let digest = sha256_hex(&body);
    h.request(
        Method::Put,
        &format!("/v2/demo/app/manifests/{digest}?tag=a&tag=b&tag=c"),
        typed(),
        body,
    )
    .assert_error(414, ErrorCode::ManifestInvalid);
}

#[test]
fn a_subject_is_acknowledged_with_oci_subject() {
    let mut h = Harness::new();
    let subject = sha256_hex(b"the subject");
    let body = format!(
        r#"{{"schemaVersion":2,"mediaType":"{IMAGE_MANIFEST}","artifactType":"application/example","config":{{"mediaType":"application/vnd.oci.empty.v1+json","digest":"{}","size":2}},"layers":[],"subject":{{"mediaType":"{IMAGE_MANIFEST}","digest":"{subject}","size":10}}}}"#,
        sha256_hex(b"{}")
    );

    let put = h.request(
        Method::Put,
        "/v2/demo/app/manifests/sig",
        typed(),
        body.into_bytes(),
    );
    assert_eq!(put.status, 201);
    assert_eq!(
        put.header("oci-subject"),
        Some(subject.as_str()),
        "a subject that names a manifest which does not exist MUST still be accepted"
    );
}

#[test]
fn a_conditional_get_returns_304() {
    let mut h = Harness::new();
    let digest =
        h.registry
            .seed_manifest("demo/app", Some("v1"), IMAGE_MANIFEST, &manifest_bytes());
    let etag = format!("\"{}\"", digest.to_text());

    let reply = h.request(
        Method::Get,
        "/v2/demo/app/manifests/v1",
        vec![("if-none-match", etag.clone())],
        Vec::new(),
    );
    assert_eq!(reply.status, 304);
    assert!(reply.body.is_empty());
    assert_eq!(reply.header("etag"), Some(etag.as_str()));

    for (value, status) in [
        ("*".to_string(), 304),
        (digest.to_text(), 304),
        (format!("\"x\" , {etag}"), 304),
        ("\"x\"".to_string(), 200),
    ] {
        let reply = h.request(
            Method::Get,
            "/v2/demo/app/manifests/v1",
            vec![("if-none-match", value.clone())],
            Vec::new(),
        );
        assert_eq!(reply.status, status, "{value}");
    }
}

#[test]
fn deleting_by_digest_cascades_to_tags_and_by_tag_does_not() {
    let mut h = Harness::new();
    let body = manifest_bytes();
    let digest = h
        .registry
        .seed_manifest("demo/app", Some("v1"), IMAGE_MANIFEST, &body);
    h.registry
        .seed_manifest("demo/app", Some("v2"), IMAGE_MANIFEST, &body);

    // Deleting one tag leaves the manifest, and the other tag, reachable.
    assert_eq!(h.delete("/v2/demo/app/manifests/v1").status, 202);
    assert_eq!(
        h.head("/v2/demo/app/manifests/v1").status,
        404,
        "a delete is visible immediately, not eventually"
    );
    assert_eq!(h.head("/v2/demo/app/manifests/v2").status, 200);

    // Deleting by digest takes every remaining tag with it.
    let by_digest = format!("/v2/demo/app/manifests/{}", digest.to_text());
    assert_eq!(h.delete(&by_digest).status, 202);
    assert_eq!(h.head("/v2/demo/app/manifests/v2").status, 404);
    h.delete(&by_digest).assert_error(404, ErrorCode::ManifestUnknown);
    h.delete("/v2/no/such/manifests/v2")
        .assert_error(404, ErrorCode::NameUnknown);
}

#[test]
fn an_unknown_repository_is_name_unknown() {
    let mut h = Harness::new();
    h.get("/v2/no/such/repo/manifests/v1")
        .assert_error(404, ErrorCode::NameUnknown);
    h.get("/v2/no/such/repo/tags/list")
        .assert_error(404, ErrorCode::NameUnknown);
}

// ------------------------------------------------------------- pagination --

fn seeded_tags(h: &mut Harness) {
    for tag in ["v1", "v2", "v3", "v4", "v5"] {
        h.registry
            .seed_manifest("demo/app", Some(tag), IMAGE_MANIFEST, tag.as_bytes());
    }
}

#[test]
fn tags_are_byte_ordered_and_last_is_exclusive() {
    let mut h = Harness::new();
    seeded_tags(&mut h);

    match h.get("/v2/demo/app/tags/list").document {
        Some(Document::Tags { name, tags }) => {
            assert_eq!(name, "demo/app");
            assert_eq!(tags, ["v1", "v2", "v3", "v4", "v5"]);
        }
        other => panic!("{other:?}"),
    }

    assert_eq!(
        h.tags("/v2/demo/app/tags/list?last=v3"),
        ["v4", "v5"],
        "`last` is exclusive"
    );
}

#[test]
fn link_is_emitted_only_when_a_further_page_exists() {
    let mut h = Harness::new();
    seeded_tags(&mut h);

    assert_eq!(h.tags("/v2/demo/app/tags/list?n=2"), ["v1", "v2"]);
    assert_eq!(
        h.get("/v2/demo/app/tags/list?n=2").header("link"),
        Some("</v2/demo/app/tags/list?last=v2&n=2>; rel=\"next\"")
    );

    // A page that exactly consumes the range has nothing after it.
    assert_eq!(h.get("/v2/demo/app/tags/list?n=5").header("link"), None);

    assert_eq!(h.tags("/v2/demo/app/tags/list?n=2&last=v3"), ["v4", "v5"]);
    assert_eq!(
        h.get("/v2/demo/app/tags/list?n=2&last=v3").header("link"),
        None
    );
}

#[test]
fn following_links_meets_every_tag_once() {
    let mut h = Harness::new();
    seeded_tags(&mut h);
    let mut seen = Vec::new();
    let mut url = "/v2/demo/app/tags/list?n=2".to_owned();
    let mut pages = 0;
    loop {
        pages += 1;
        let reply = h.get(&url);
        let link = reply.header("link").map(str::to_owned);
        match reply.document {
            Some(Document::Tags { tags, .. }) => seen.extend(tags),
            other => panic!("{other:?}"),
        }
        match link {
            Some(link) => {
                url = link
                    .trim_start_matches('<')
                    .split('>')
                    .next()
                    .expect("a bracketed URL")
                    .to_owned()
            }
            None => break,
        }
    }
    assert_eq!(seen, ["v1", "v2", "v3", "v4", "v5"]);
    assert_eq!(pages, 3);
}

#[test]
fn a_refused_push_leaves_nothing_behind() {
    let mut h = Harness::new();
    let wrong = sha256_hex(b"something else");
    h.request(
        Method::Put,
        &format!("/v2/demo/app/manifests/{wrong}?tag=v1"),
        typed(),
        manifest_bytes(),
    )
    .assert_error(400, ErrorCode::DigestInvalid);
    h.request(
        Method::Post,
        &format!("/v2/demo/app/blobs/uploads/?digest={wrong}"),
        Vec::new(),
        b"other bytes".to_vec(),
    )
    .assert_error(400, ErrorCode::DigestInvalid);
    match h.get("/v2/_catalog").document {
        Some(Document::Catalog { repositories }) => assert!(repositories.is_empty()),
        other => panic!("{other:?}"),
    }
}

#[test]
fn n_zero_is_an_empty_list_with_no_link() {
    let mut h = Harness::new();
    seeded_tags(&mut h);
    let reply = h.get("/v2/demo/app/tags/list?n=0");
    assert_eq!(reply.status, 200);
    assert_eq!(reply.header("link"), None);
    assert!(h.tags("/v2/demo/app/tags/list?n=0").is_empty());
}

#[test]
fn a_malformed_n_is_pagination_number_invalid() {
    let mut h = Harness::new();
    seeded_tags(&mut h);
    for query in ["n=-1", "n=abc", "n=1.5"] {
        h.get(&format!("/v2/demo/app/tags/list?{query}"))
            .assert_error(400, ErrorCode::PaginationNumberInvalid);
    }
}

#[test]
fn an_oversized_n_is_clamped_rather_than_rejected() {
    let mut h = Harness::with_config(ServerConfig {
        max_page_size: 3,
        ..ServerConfig::default()
    });
    seeded_tags(&mut h);
    let reply = h.get("/v2/demo/app/tags/list?n=1000000");
    assert_eq!(reply.status, 200);
    assert_eq!(
        reply.header("link"),
        Some("</v2/demo/app/tags/list?last=v3&n=3>; rel=\"next\"")
    );
    assert_eq!(
        h.tags("/v2/demo/app/tags/list?n=1000000"),
        ["v1", "v2", "v3"]
    );
}

#[test]
fn the_catalog_pages_over_names_and_escapes_the_cursor() {
    let mut h = Harness::new();
    for repo in ["conformance/repo1", "conformance/repo2", "other"] {
        h.registry
            .seed_manifest(repo, Some("v1"), IMAGE_MANIFEST, b"{}");
    }

    let all = h.get("/v2/_catalog");
    assert_eq!(all.header("link"), None);
    match all.document {
        Some(Document::Catalog { repositories }) => assert_eq!(
            repositories,
            ["conformance/repo1", "conformance/repo2", "other"]
        ),
        other => panic!("{other:?}"),
    }

    let first = h.get("/v2/_catalog?n=1");
    assert_eq!(
        first.header("link"),
        Some("</v2/_catalog?last=conformance%2Frepo1&n=1>; rel=\"next\"")
    );
    match first.document {
        Some(Document::Catalog { repositories }) => {
            assert_eq!(repositories, ["conformance/repo1"])
        }
        other => panic!("{other:?}"),
    }
}

// ------------------------------------------------------------------ blobs --

fn blob_2048() -> Vec<u8> {
    (0..2048u32).map(|i| (i % 251) as u8).collect()
}

#[test]
fn a_blob_is_served_with_its_digest_and_length() {
    let mut h = Harness::new();
    let bytes = blob_2048();
    let digest = h.registry.seed_blob("demo/app", &bytes).to_text();

    let get = h.get(&format!("/v2/demo/app/blobs/{digest}"));
    assert_eq!(get.status, 200);
    assert_eq!(&get.body[..], &bytes[..]);
    assert_eq!(get.header("content-length"), Some("2048"));
    assert_eq!(get.header("accept-ranges"), Some("bytes"));
    assert_eq!(get.header("docker-content-digest"), Some(digest.as_str()));
    assert_eq!(
        get.header("content-encoding"),
        None,
        "a blob body is never transformed; the digest is over the plaintext"
    );

    let head = h.head(&format!("/v2/demo/app/blobs/{digest}"));
    assert_eq!(head.status, 200);
    assert_eq!(head.header("content-length"), Some("2048"));
    assert!(head.body.is_empty());
}

#[test]
fn the_six_range_cases_answer_as_the_suite_expects() {
    let mut h = Harness::new();
    let bytes = blob_2048();
    let digest = h.registry.seed_blob("demo/app", &bytes).to_text();
    let uri = format!("/v2/demo/app/blobs/{digest}");

    for (range, length, content_range, span) in [
        ("bytes=500-1499", "1000", "bytes 500-1499/2048", 500..1500),
        ("bytes=500-", "1548", "bytes 500-2047/2048", 500..2048),
        ("bytes=-500", "500", "bytes 1548-2047/2048", 1548..2048),
        ("bytes=2000-5000", "48", "bytes 2000-2047/2048", 2000..2048),
    ] {
        let reply = h.request(
            Method::Get,
            &uri,
            vec![("range", range.to_owned())],
            Vec::new(),
        );
        assert_eq!(reply.status, 206, "{range}");
        assert_eq!(reply.header("content-length"), Some(length), "{range}");
        assert_eq!(
            reply.header("content-range"),
            Some(content_range),
            "{range}"
        );
        assert_eq!(&reply.body[..], &bytes[span], "{range}");
    }

    for range in ["bytes=500-0", "bytes=5000-10000"] {
        let reply = h.request(
            Method::Get,
            &uri,
            vec![("range", range.to_owned())],
            Vec::new(),
        );
        assert_eq!(reply.status, 416, "{range} must not fall back to a 200");
        assert_eq!(reply.header("content-range"), Some("bytes */2048"));
        assert!(reply.body.is_empty());
        assert!(reply.error.is_none());
    }
}

#[test]
fn an_empty_blob_round_trips() {
    let mut h = Harness::new();
    let digest = h.registry.seed_blob("demo/app", b"").to_text();
    let reply = h.get(&format!("/v2/demo/app/blobs/{digest}"));
    assert_eq!(reply.status, 200);
    assert_eq!(
        reply.header("content-length"),
        Some("0"),
        "a zero-length body must still declare its length"
    );
    assert_eq!(
        digest,
        "sha256:e3b0c44298fc1c149afbf4c8996fb92427ae41e4649b934ca495991b7852b855"
    );
}

#[test]
fn unknown_and_malformed_blobs_are_distinguished() {
    let mut h = Harness::new();
    h.registry.seed_blob("demo/app", b"present");
    let missing = sha256_hex(b"absent");
    h.get(&format!("/v2/demo/app/blobs/{missing}"))
        .assert_error(404, ErrorCode::BlobUnknown);
    h.get("/v2/demo/app/blobs/sha256:nonsense")
        .assert_error(400, ErrorCode::DigestInvalid);
}

#[test]
fn blob_membership_is_per_repository() {
    let mut h = Harness::new();
    let digest = h.registry.seed_blob("demo/one", b"shared").to_text();
    h.registry
        .seed_manifest("demo/two", None, IMAGE_MANIFEST, b"{}");

    assert_eq!(h.head(&format!("/v2/demo/one/blobs/{digest}")).status, 200);
    assert_eq!(
        h.head(&format!("/v2/demo/two/blobs/{digest}")).status,
        404,
        "a blob present elsewhere must not leak across repositories"
    );
}

#[test]
fn deleting_a_blob_from_one_repository_leaves_the_other() {
    let mut h = Harness::new();
    let bytes = b"shared layer";
    let digest = h.registry.seed_blob("demo/one", bytes).to_text();
    h.registry.seed_blob("demo/two", bytes);

    assert_eq!(h.delete(&format!("/v2/demo/one/blobs/{digest}")).status, 202);
    assert_eq!(h.head(&format!("/v2/demo/one/blobs/{digest}")).status, 404);
    assert_eq!(h.head(&format!("/v2/demo/two/blobs/{digest}")).status, 200);

    h.delete(&format!("/v2/demo/one/blobs/{digest}"))
        .assert_error(404, ErrorCode::BlobUnknown);
}

// ---------------------------------------------------------------- uploads --

/// `POST` a session and return its `Location`.
fn open_upload(h: &mut Harness, uri: &str) -> String {
    let reply = h.request(Method::Post, uri, Vec::new(), Vec::new());
    assert_eq!(reply.status, 202);
    assert_eq!(reply.header("range"), Some("0-0"));
    reply
        .header("location")
        .expect("a 202 must carry a Location")
        .to_owned()
}

#[test]
fn flow_a_post_then_put() {
    let mut h = Harness::new();
    let bytes = blob_2048();
    let digest = sha256_hex(&bytes);
    let location = open_upload(&mut h, "/v2/demo/app/blobs/uploads/");

    let put = h.request(
        Method::Put,
        &format!("{location}?digest={digest}"),
        vec![("content-length", bytes.len().to_string())],
        bytes.clone(),
    );
    assert_eq!(put.status, 201);
    assert_eq!(put.header("docker-content-digest"), Some(digest.as_str()));

    // `Location` on the 201 is a pullable blob URL, not the upload URL.
    let blob_url = put.header("location").expect("Location").to_owned();
    assert_eq!(blob_url, format!("/v2/demo/app/blobs/{digest}"));
    let get = h.get(&blob_url);
    assert_eq!(get.status, 200);
    assert_eq!(&get.body[..], &bytes[..]);
}

#[test]
fn flow_b_single_post() {
    let mut h = Harness::new();
    let bytes = b"one shot".to_vec();
    let digest = sha256_hex(&bytes);

    let reply = h.request(
        Method::Post,
        &format!("/v2/demo/app/blobs/uploads/?digest={digest}"),
        vec![("content-length", bytes.len().to_string())],
        bytes,
    );
    assert_eq!(reply.status, 201);
    assert_eq!(
        reply.header("location"),
        Some(format!("/v2/demo/app/blobs/{digest}").as_str())
    );
    assert_eq!(reply.header("docker-content-digest"), Some(digest.as_str()));
}

#[test]
fn flow_c_streamed_patch_needs_no_content_range() {
    let mut h = Harness::new();
    let bytes = b"streamed with chunked transfer encoding".to_vec();
    let digest = sha256_hex(&bytes);
    let location = open_upload(&mut h, "/v2/demo/app/blobs/uploads/");

    // No `Content-Range` and no `Content-Length`.
    let patch = h.request(Method::Patch, &location, Vec::new(), bytes.clone());
    assert_eq!(patch.status, 202);
    assert_eq!(
        patch.header("range"),
        Some(format!("0-{}", bytes.len() - 1).as_str())
    );

    let put = h.request(
        Method::Put,
        &format!("{location}?digest={digest}"),
        vec![("content-length", "0".to_owned())],
        Vec::new(),
    );
    assert_eq!(put.status, 201);
}

#[test]
fn flow_d_chunked_patch_reports_the_last_written_byte() {
    let mut h = Harness::new();
    let bytes = blob_2048();
    let digest = sha256_hex(&bytes);
    let location = open_upload(&mut h, "/v2/demo/app/blobs/uploads/");

    for (start, end) in [(0usize, 1023usize), (1024, 2047)] {
        let chunk = bytes[start..=end].to_vec();
        let reply = h.request(
            Method::Patch,
            &location,
            vec![
                ("content-range", format!("{start}-{end}")),
                ("content-length", chunk.len().to_string()),
            ],
            chunk,
        );
        assert_eq!(reply.status, 202);
        assert_eq!(
            reply.header("range"),
            Some(format!("0-{end}").as_str()),
            "Range names the last uploaded byte, not the next offset"
        );
    }

    let put = h.request(
        Method::Put,
        &format!("{location}?digest={digest}"),
        vec![("content-length", "0".to_owned())],
        Vec::new(),
    );
    assert_eq!(put.status, 201);
}

#[test]
fn an_out_of_order_chunk_is_416_and_leaves_the_session_untouched() {
    let mut h = Harness::new();
    let bytes = blob_2048();
    let location = open_upload(&mut h, "/v2/demo/app/blobs/uploads/");

    let first = bytes[0..1024].to_vec();
    let reply = h.request(
        Method::Patch,
        &location,
        vec![
            ("content-range", "0-1023".to_owned()),
            ("content-length", "1024".to_owned()),
        ],
        first,
    );
    assert_eq!(reply.status, 202);

    // A chunk that starts anywhere but the committed offset.
    let bad = bytes[1536..2048].to_vec();
    let reply = h.request(
        Method::Patch,
        &location,
        vec![
            ("content-range", "1536-2047".to_owned()),
            ("content-length", "512".to_owned()),
        ],
        bad,
    );
    reply.assert_error(416, ErrorCode::BlobUploadInvalid);

    // `204`, not `200`, and the offset is exactly where it was.
    let status = h.get(&location);
    assert_eq!(status.status, 204);
    assert_eq!(status.header("range"), Some("0-1023"));
    assert_eq!(status.header("location"), Some(location.as_str()));

    // The recovery path works: the correct next chunk still lands.
    let reply = h.request(
        Method::Patch,
        &location,
        vec![
            ("content-range", "1024-2047".to_owned()),
            ("content-length", "1024".to_owned()),
        ],
        bytes[1024..2048].to_vec(),
    );
    assert_eq!(reply.status, 202);
    assert_eq!(reply.header("range"), Some("0-2047"));
}

#[test]
fn an_out_of_order_final_chunk_on_the_put_is_also_416() {
    let mut h = Harness::new();
    let bytes = blob_2048();
    let digest = sha256_hex(&bytes);
    let location = open_upload(&mut h, "/v2/demo/app/blobs/uploads/");

    h.request(
        Method::Patch,
        &location,
        vec![
            ("content-range", "0-1023".to_owned()),
            ("content-length", "1024".to_owned()),
        ],
        bytes[0..1024].to_vec(),
    );

    h.request(
        Method::Put,
        &format!("{location}?digest={digest}"),
        vec![
            ("content-range", "2000-2047".to_owned()),
            ("content-length", "48".to_owned()),
        ],
        bytes[2000..2048].to_vec(),
    )
    .assert_error(416, ErrorCode::BlobUploadInvalid);
}

#[test]
fn the_download_content_range_grammar_is_rejected_on_an_upload() {
    let mut h = Harness::new();
    let location = open_upload(&mut h, "/v2/demo/app/blobs/uploads/");

    for wrong in ["bytes 0-1023/2048", "bytes=0-1023", "0-1023/2048"] {
        h.request(
            Method::Patch,
            &location,
            vec![
                ("content-range", wrong.to_owned()),
                ("content-length", "1024".to_owned()),
            ],
            vec![0u8; 1024],
        )
        .assert_error(400, ErrorCode::BlobUploadInvalid);
    }
}

#[test]
fn a_content_length_that_disagrees_with_the_range_is_size_invalid() {
    let mut h = Harness::new();
    let location = open_upload(&mut h, "/v2/demo/app/blobs/uploads/");
    h.request(
        Method::Patch,
        &location,
        vec![
            ("content-range", "0-1023".to_owned()),
            ("content-length", "512".to_owned()),
        ],
        vec![0u8; 512],
    )
    .assert_error(400, ErrorCode::SizeInvalid);

    // The widest range there is has more bytes than any length can say.
    let reply = h.request(
        Method::Patch,
        &location,
        vec![
            ("content-range", format!("0-{}", u64::MAX)),
            ("content-length", "0".to_owned()),
        ],
        Vec::new(),
    );
    reply.assert_error(400, ErrorCode::SizeInvalid);
    assert_eq!(
        reply.error.unwrap().2.as_deref(),
        Some("expected 18446744073709551616 bytes, got 0")
    );
}

#[test]
fn an_inverted_content_range_is_refused() {
    let mut h = Harness::new();
    let location = open_upload(&mut h, "/v2/demo/app/blobs/uploads/");
    let reply = h.request(
        Method::Patch,
        &location,
        vec![
            ("content-range", "9-3".to_owned()),
            ("content-length", "1".to_owned()),
        ],
        vec![0u8],
    );
    reply.assert_error(400, ErrorCode::BlobUploadInvalid);
    assert_eq!(reply.error.unwrap().1, "Content-Range start is after its end");
}

#[test]
fn a_body_of_another_length_than_declared_is_refused_and_not_committed() {
    let mut h = Harness::new();
    let location = open_upload(&mut h, "/v2/demo/app/blobs/uploads/");
    let reply = h.request(
        Method::Patch,
        &location,
        vec![
            ("content-range", "0-3".to_owned()),
            ("content-length", "4".to_owned()),
        ],
        vec![0u8; 3],
    );
    reply.assert_error(400, ErrorCode::SizeInvalid);
    assert_eq!(h.get(&location).header("range"), Some("0-0"));
}

#[test]
fn a_chunk_above_the_ceiling_is_413() {
    let mut h = Harness::with_config(ServerConfig {
        max_upload_chunk_bytes: 4,
        ..ServerConfig::default()
    });
    let location = open_upload(&mut h, "/v2/demo/app/blobs/uploads/");
    let reply = h.request(Method::Patch, &location, Vec::new(), vec![0u8; 5]);
    reply.assert_error(413, ErrorCode::SizeInvalid);
    assert_eq!(h.request(Method::Patch, &location, Vec::new(), vec![0u8; 4]).status, 202);
}

#[test]
fn closing_an_upload_verifies_the_digest() {
    let mut h = Harness::new();
    let location = open_upload(&mut h, "/v2/demo/app/blobs/uploads/");
    h.request(
        Method::Patch,
        &location,
        Vec::new(),
        b"the real bytes".to_vec(),
    );

    let wrong = sha256_hex(b"different bytes");
    h.request(
        Method::Put,
        &format!("{location}?digest={wrong}"),
        vec![("content-length", "0".to_owned())],
        Vec::new(),
    )
    .assert_error(400, ErrorCode::DigestInvalid);

    // A close with no `?digest=` at all cannot be verified, so it is refused.
    h.request(
        Method::Put,
        &location,
        vec![("content-length", "0".to_owned())],
        Vec::new(),
    )
    .assert_error(400, ErrorCode::DigestInvalid);

    // The session survived both.
    let right = sha256_hex(b"the real bytes");
    let put = h.request(
        Method::Put,
        &format!("{location}?digest={right}"),
        Vec::new(),
        Vec::new(),
    );
    assert_eq!(put.status, 201);
}

#[test]
fn an_upload_can_be_cancelled() {
    let mut h = Harness::new();
    let location = open_upload(&mut h, "/v2/demo/app/blobs/uploads/");
    let reply = h.delete(&location);
    assert_eq!(reply.status, 204);

    h.get(&location)
        .assert_error(404, ErrorCode::BlobUploadUnknown);
    h.delete(&location)
        .assert_error(404, ErrorCode::BlobUploadUnknown);
}

#[test]
fn an_upload_belongs_to_its_repository() {
    let mut h = Harness::new();
    let location = open_upload(&mut h, "/v2/demo/app/blobs/uploads/");
    let elsewhere = location.replace("demo/app", "demo/other");
    h.get(&elsewhere)
        .assert_error(404, ErrorCode::BlobUploadUnknown);
}

#[test]
fn sha512_works_end_to_end() {
    let mut h = Harness::new();
    let bytes = b"hashed under sha512".to_vec();
    let digest = sha512_hex(&bytes);

    let location = open_upload(
        &mut h,
        "/v2/demo/app/blobs/uploads/?digest-algorithm=sha512",
    );
    let put = h.request(
        Method::Put,
        &format!("{location}?digest={digest}"),
        vec![("content-length", bytes.len().to_string())],
        bytes.clone(),
    );
    assert_eq!(put.status, 201);
    assert_eq!(
        put.header("docker-content-digest"),
        Some(digest.as_str()),
        "the digest is echoed under the algorithm the client chose"
    );

    let get = h.get(&format!("/v2/demo/app/blobs/{digest}"));
    assert_eq!(get.status, 200);
    assert_eq!(&get.body[..], &bytes[..]);
}

#[test]
fn a_digest_of_another_algorithm_than_the_sessions_is_refused() {
    let mut h = Harness::new();
    let location = open_upload(&mut h, "/v2/demo/app/blobs/uploads/");
    let digest = sha512_hex(b"x");
    h.request(
        Method::Put,
        &format!("{location}?digest={digest}"),
        Vec::new(),
        b"x".to_vec(),
    )
    .assert_error(400, ErrorCode::DigestInvalid);
}

#[test]
fn an_unsupported_digest_algorithm_is_rejected_at_the_post() {
    let mut h = Harness::new();
    h.request(
        Method::Post,
        "/v2/demo/app/blobs/uploads/?digest-algorithm=md5",
        Vec::new(),
        Vec::new(),
    )
    .assert_error(400, ErrorCode::DigestInvalid);
}

#[test]
fn a_mount_succeeds_or_degrades_to_a_session() {
    let mut h = Harness::new();
    let bytes = b"a shared base layer".to_vec();
    let digest = h.registry.seed_blob("demo/source", &bytes).to_text();

    let mounted = h.request(
        Method::Post,
        &format!("/v2/demo/target/blobs/uploads/?mount={digest}&from=demo/source"),
        Vec::new(),
        Vec::new(),
    );
    assert_eq!(mounted.status, 201);
    assert_eq!(
        mounted.header("location"),
        Some(format!("/v2/demo/target/blobs/{digest}").as_str())
    );
    assert_eq!(
        mounted.header("docker-content-digest"),
        Some(digest.as_str())
    );
    assert_eq!(
        h.head(&format!("/v2/demo/target/blobs/{digest}")).status,
        200
    );

    // Anonymous mount: `from` is optional.
    let anonymous = h.request(
        Method::Post,
        &format!("/v2/demo/third/blobs/uploads/?mount={digest}"),
        Vec::new(),
        Vec::new(),
    );
    assert_eq!(anonymous.status, 201);

    // A blob nobody has: refusal is a `202` with an ordinary upload session, not an
    // error.
    let missing = sha256_hex(b"nowhere to be found");
    let refused = h.request(
        Method::Post,
        &format!("/v2/demo/target/blobs/uploads/?mount={missing}&from=demo/source"),
        Vec::new(),
        Vec::new(),
    );
    assert_eq!(refused.status, 202);
    assert!(refused
        .header("location")
        .is_some_and(|l| l.contains("/blobs/uploads/")));

    // So is a digest that cannot be read.
    let unread = h.request(
        Method::Post,
        "/v2/demo/target/blobs/uploads/?mount=junk",
        Vec::new(),
        Vec::new(),
    );
    assert_eq!(unread.status, 202);
}

#[test]
fn a_session_gets_an_identifier_of_its_own() {
    let config = ServerConfig::default();
    let mut registry = MemoryRegistry::new();
    let request = ask(Method::Post, "/v2/demo/app/blobs/uploads/", Vec::new());
    let ctx = Ctx { request: &request, config: &config };
    let first = show(serve(&ctx, &mut registry, Vec::new()));
    let second = show(serve(&ctx, &mut registry, Vec::new()));
    assert_eq!((first.status, second.status), (202, 202));
    assert_ne!(first.header("location"), second.header("location"));
    let location = first.header("location").unwrap().to_owned();
    assert_eq!(location.len(), "/v2/demo/app/blobs/uploads/".len() + 36);
    let request = ask(Method::Get, &location, Vec::new());
    let ctx = Ctx { request: &request, config: &config };
    assert_eq!(show(serve(&ctx, &mut registry, Vec::new())).status, 204);
}

#[test]
fn a_minimum_chunk_length_is_announced_if_there_is_one() {
    let mut h = Harness::with_config(ServerConfig {
        chunk_min_length: Some(4096),
        ..ServerConfig::default()
    });
    let reply = h.request(Method::Post, "/v2/demo/blobs/uploads/", Vec::new(), Vec::new());
    assert_eq!(reply.header("oci-chunk-min-length"), Some("4096"));
}

// -------------------------------------------------------------- referrers --

#[test]
fn referrers_is_404_while_disabled_but_still_validates_the_digest() {
    let mut h = Harness::new();
    let subject = sha256_hex(b"subject");
    let reply = h.get(&format!("/v2/demo/app/referrers/{subject}"));
    assert_eq!(reply.status, 404);

    // A malformed digest is a `400` whether or not the endpoint is enabled.
    h.get("/v2/demo/app/referrers/sha256:nonsense")
        .assert_error(400, ErrorCode::DigestInvalid);
}

#[test]
fn referrers_never_404s_once_enabled() {
    let mut h = Harness::with_config(ServerConfig {
        referrers_enabled: true,
        ..ServerConfig::default()
    });
    let unknown = sha256_hex(b"a subject nobody pushed");

    // Unknown subject *and* unknown repository: still `200` with an empty list.
    let reply = h.get(&format!("/v2/demo/app/referrers/{unknown}"));
    assert_eq!(reply.status, 200);
    assert_eq!(
        reply.header("content-type"),
        Some("application/vnd.oci.image.index.v1+json")
    );
    match reply.document {
        Some(Document::Index { manifests }) => assert!(manifests.is_empty()),
        other => panic!("{other:?}"),
    }
}

#[test]
fn referrers_lists_and_filters() {
    let mut h = Harness::with_config(ServerConfig {
        referrers_enabled: true,
        ..ServerConfig::default()
    });
    let subject_digest =
        h.registry
            .seed_manifest("demo/app", Some("v1"), IMAGE_MANIFEST, b"{\"subject\":1}");

    let sig = h
        .registry
        .seed_manifest("demo/app", None, IMAGE_MANIFEST, b"{\"kind\":\"sig\"}");
    h.registry
        .seed_subject("demo/app", &sig, subject_digest, Some("application/sig"));
    let sbom = h
        .registry
        .seed_manifest("demo/app", None, IMAGE_MANIFEST, b"{\"kind\":\"sbom\"}");
    h.registry
        .seed_subject("demo/app", &sbom, subject_digest, Some("application/sbom"));

    let uri = format!("/v2/demo/app/referrers/{}", subject_digest.to_text());
    let all = h.get(&uri);
    assert_eq!(all.status, 200);
    assert_eq!(
        all.header("oci-filters-applied"),
        None,
        "no filter was requested, so none may be claimed"
    );
    match all.document {
        Some(Document::Index { manifests }) => assert_eq!(manifests.len(), 2),
        other => panic!("{other:?}"),
    }

    let filtered = h.get(&format!("{uri}?artifactType=application/sig"));
    assert_eq!(filtered.header("oci-filters-applied"), Some("artifactType"));
    match filtered.document {
        Some(Document::Index { manifests }) => {
            assert_eq!(manifests.len(), 1);
            assert_eq!(manifests[0].artifact_type.as_deref(), Some("application/sig"));
            assert_eq!(manifests[0].digest, sig);
        }
        other => panic!("{other:?}"),
    }
}

/// A pushed manifest says itself what it refers to, and how.
fn referring(subject: &str, artifact_type: Option<&str>, n: usize) -> Vec<u8> {
    let kind = artifact_type.map_or(String::new(), |t| format!("\"artifactType\":\"{t}\","));
    format!(
        r#"{{"schemaVersion":2,{kind}"config":{{"mediaType":"application/vnd.oci.image.config.v1+json"}},"subject":{{"digest":"{subject}"}},"annotations":{{"org.example.n":"{n}","a.b":"c","not.text":7}}}}"#
    )
    .into_bytes()
}

#[test]
fn pushed_referrers_are_described_by_what_they_say() {
    let mut h = Harness::with_config(ServerConfig {
        referrers_enabled: true,
        ..ServerConfig::default()
    });
    let subject = sha256_hex(b"never pushed");
    for (n, kind) in [Some("application/vnd.example.sig"), None].iter().enumerate() {
        let body = referring(&subject, *kind, n);
        let uri = format!("/v2/demo/app/manifests/{}", sha256_hex(&body));
        let put = h.request(Method::Put, &uri, typed(), body);
        assert_eq!(put.status, 201);
        assert_eq!(put.header("oci-subject"), Some(subject.as_str()));
    }
    match h.get(&format!("/v2/demo/app/referrers/{subject}")).document {
        Some(Document::Index { manifests }) => {
            assert_eq!(manifests.len(), 2);
            for m in &manifests {
                let n = if m.artifact_type.as_deref() == Some("application/vnd.example.sig") {
                    "0"
                } else {
                    // Without a type of its own it has its config's.
                    assert_eq!(
                        m.artifact_type.as_deref(),
                        Some("application/vnd.oci.image.config.v1+json")
                    );
                    "1"
                };
                // In the order of the names, and only what is text.
                assert_eq!(
                    m.annotations,
                    [
                        ("a.b".to_string(), "c".to_string()),
                        ("org.example.n".to_string(), n.to_string())
                    ]
                );
                assert_eq!(m.media_type, IMAGE_MANIFEST);
            }
        }
        other => panic!("{other:?}"),
    }
}

#[test]
fn a_manifest_that_is_no_json_is_stored_and_refers_to_nothing() {
    let mut h = Harness::new();
    let put = h.request(Method::Put, "/v2/demo/app/manifests/v1", typed(), b"not json".to_vec());
    assert_eq!(put.status, 201);
    assert_eq!(put.header("oci-subject"), None);
    let put = h.request(
        Method::Put,
        "/v2/demo/app/manifests/v2",
        typed(),
        br#"{"subject":{"digest":"sha256:short"}}"#.to_vec(),
    );
    assert_eq!(put.header("oci-subject"), None);
    assert_eq!(h.get("/v2/demo/app/manifests/v1").body, b"not json");
}

#[test]
fn a_referrers_filter_is_exact_and_the_link_carries_it() {
    let mut h = Harness::with_config(ServerConfig {
        referrers_enabled: true,
        default_page_size: 1,
        max_page_size: 1,
        ..ServerConfig::default()
    });
    let subject = sha256_hex(b"subject");
    let mut sboms = Vec::new();
    for n in 0..6 {
        // One in three is an SBOM, so most pages hold no match at all.
        let artifact_type = if n % 3 == 0 {
            "application/vnd.example.sbom"
        } else {
            "application/vnd.example.sig"
        };
        let body = referring(&subject, Some(artifact_type), n);
        let digest = sha256_hex(&body);
        let uri = format!("/v2/acme/mixed/manifests/{digest}");
        assert_eq!(h.request(Method::Put, &uri, typed(), body).status, 201);
        if n % 3 == 0 {
            sboms.push(digest);
        }
    }
    sboms.sort();

    let mut seen = Vec::new();
    let mut url =
        format!("/v2/acme/mixed/referrers/{subject}?artifactType=application/vnd.example.sbom");
    for _ in 0..20 {
        let reply = h.get(&url);
        assert_eq!(reply.status, 200);
        assert_eq!(
            reply.header("oci-filters-applied"),
            Some("artifactType"),
            "the filter is exact on every page, so it is claimed on every page",
        );
        let link = reply.header("link").map(str::to_owned);
        match reply.document {
            Some(Document::Index { manifests }) => {
                for m in manifests {
                    assert_eq!(
                        m.artifact_type.as_deref(),
                        Some("application/vnd.example.sbom")
                    );
                    seen.push(m.digest.to_text());
                }
            }
            other => panic!("{other:?}"),
        }
        match link {
            Some(next) => {
                assert!(
                    next.contains("artifactType=application%2Fvnd.example.sbom"),
                    "a link that drops the filter is a link to a different query: {next}",
                );
                url = next
                    .trim_start_matches('<')
                    .split('>')
                    .next()
                    .expect("a bracketed URL")
                    .to_owned();
            }
            None => break,
        }
    }

    assert_eq!(
        seen, sboms,
        "every match, across pages that were mostly empty"
    );
}

#[test]
fn a_referrers_cursor_that_is_no_digest_is_refused() {
    let mut h = Harness::with_config(ServerConfig {
        referrers_enabled: true,
        ..ServerConfig::default()
    });
    let subject = sha256_hex(b"subject");
    h.get(&format!("/v2/demo/referrers/{subject}?last=junk"))
        .assert_error(400, ErrorCode::DigestInvalid);
}

// ------------------------------------------------------------ failures below --

#[test]
fn every_failure_of_a_registry_has_its_answer() {
    let told = |e: OpsError| {
        let e = summ::server::handlers::common::ops_error(e);
        (e.status, e.body, e.detail)
    };
    let d = Digest::Sha256([1; 32]);
    assert_eq!(told(OpsError::RepoUnknown), (404, Some(ErrorCode::NameUnknown), None));
    assert_eq!(told(OpsError::ManifestUnknown), (404, Some(ErrorCode::ManifestUnknown), None));
    assert_eq!(told(OpsError::BlobUnknown), (404, Some(ErrorCode::BlobUnknown), None));
    assert_eq!(told(OpsError::UploadUnknown), (404, Some(ErrorCode::BlobUploadUnknown), None));
    assert_eq!(
        told(OpsError::OffsetMismatch { current: 7 }),
        (
            416,
            Some(ErrorCode::BlobUploadInvalid),
            Some("expected the chunk to start at 7".to_string())
        )
    );
    assert_eq!(told(OpsError::DigestMismatch), (400, Some(ErrorCode::DigestInvalid), None));
    assert_eq!(
        told(OpsError::SizeMismatch { declared: 4, actual: 3 }),
        (
            400,
            Some(ErrorCode::SizeInvalid),
            Some("expected 4 bytes, got 3".to_string())
        )
    );
    assert_eq!(
        told(OpsError::BodyTooLarge { limit: 9 }),
        (413, Some(ErrorCode::SizeInvalid), Some("limit is 9 bytes".to_string()))
    );
    assert_eq!(
        told(OpsError::BodyIncomplete("cut".into())),
        (400, Some(ErrorCode::BlobUploadInvalid), Some("cut".to_string()))
    );
    assert_eq!(
        told(OpsError::ManifestInvalid("why".into())),
        (400, Some(ErrorCode::ManifestInvalid), Some("why".to_string()))
    );
    assert_eq!(
        told(OpsError::ManifestBlobUnknown { digest: d }),
        (400, Some(ErrorCode::ManifestBlobUnknown), Some(d.to_text()))
    );
    assert_eq!(told(OpsError::Internal("x".into())), (500, None, None));
}

// -------------------------------------------------------------- discovery --

fn info(b: u8) -> ManifestInfo {
    ManifestInfo {
        digest: Digest::Sha256([b; 32]),
        media_type: IMAGE_MANIFEST.to_string(),
        size: 1,
        blob_size: 2,
        artifact_type: None,
        subject: None,
        pushed_at: 3,
        platforms: Vec::new(),
        blobs: 1,
        children: 0,
        tags: Vec::new(),
        annotations: Vec::new(),
    }
}

#[test]
fn discovery_pages_are_small_and_bounded() {
    let config = ServerConfig::default();
    let params = |uri: &str| {
        let request = ask(Method::Get, uri, Vec::new());
        api::page_params(&Ctx { request: &request, config: &config })
    };
    assert_eq!(params("/x").unwrap(), (25, None));
    assert_eq!(params("/x?n=0").unwrap().0, 1);
    assert_eq!(params("/x?n=7&last=a").unwrap(), (7, Some("a".to_string())));
    assert_eq!(params("/x?n=100000").unwrap().0, 100);
    let e = params("/x?n=nope").unwrap_err();
    assert_eq!(e.code(), ErrorCode::PaginationNumberInvalid);
    assert_eq!(e.detail.as_deref(), Some("n=nope"));
}

#[test]
fn discovery_requests_are_read_only_and_checked() {
    let config = ServerConfig::default();
    let post = ask(Method::Post, "/x", Vec::new());
    assert_eq!(
        api::check_method(&Ctx { request: &post, config: &config }).unwrap_err().status,
        405
    );
    let get = ask(Method::Get, "/x?last=junk&q=ng&before=12", Vec::new());
    let ctx = Ctx { request: &get, config: &config };
    assert!(api::check_method(&ctx).is_ok());
    assert_eq!(api::search_prefix(&ctx), "ng");
    assert_eq!(api::before_param(&ctx).unwrap(), Some(12));
    let e = api::manifests_params(&ctx).unwrap_err();
    assert_eq!((e.code(), e.message.as_str()), (ErrorCode::DigestInvalid, "invalid cursor"));
    let p = api::history_params(&ctx, "v1").unwrap();
    assert!(matches!(p.reference, Reference::Tag(t) if t == "v1"));
    assert_eq!((p.limit, p.before), (25, Some(12)));
    let late = ask(Method::Get, "/x?before=yesterday", Vec::new());
    let e = api::before_param(&Ctx { request: &late, config: &config }).unwrap_err();
    assert_eq!(e.detail.as_deref(), Some("before=yesterday"));
    assert_eq!(
        api::parse_reference("sha256:zz").unwrap_err().code(),
        ErrorCode::DigestInvalid
    );
    assert_eq!(
        api::parse_reference("-no").unwrap_err().code(),
        ErrorCode::ManifestUnknown
    );
}

#[test]
fn a_discovery_cursor_is_the_last_row_if_there_is_more() {
    let config = ServerConfig::default();
    let request = ask(Method::Get, "/x", Vec::new());
    let ctx = Ctx { request: &request, config: &config };
    let row = |name: &str| RepoSummary {
        name: name.to_string(),
        tags: Tally::exact(1),
        manifests: Tally::exact(2),
    };
    let page = Page { items: vec![row("a"), row("b")], more: true };
    let reply = show(api::repositories(&ctx, Ok(page)));
    assert_eq!(reply.header("cache-control"), Some("no-store"));
    match reply.document {
        Some(Document::Repositories { repositories, next }) => {
            assert_eq!(repositories.len(), 2);
            assert_eq!(next.as_deref(), Some("b"));
        }
        other => panic!("{other:?}"),
    }
    let page = Page { items: vec![row("a")], more: false };
    match show(api::repositories(&ctx, Ok(page))).document {
        Some(Document::Repositories { next, .. }) => assert_eq!(next, None),
        other => panic!("{other:?}"),
    }
    let tag = TagInfo {
        name: "v1".to_string(),
        digest: Digest::Sha256([1; 32]),
        tagged_at: 9,
        manifest: Some(info(1)),
    };
    match show(api::tags(&ctx, Ok(Page { items: vec![tag], more: true }))).document {
        Some(Document::TagRows { next, .. }) => assert_eq!(next.as_deref(), Some("v1")),
        other => panic!("{other:?}"),
    }
    match show(api::manifests(&ctx, Ok(Page { items: vec![info(1)], more: true }))).document {
        Some(Document::ManifestRows { next, .. }) => {
            assert_eq!(next, Some(Digest::Sha256([1; 32]).to_text()))
        }
        other => panic!("{other:?}"),
    }
    assert!(matches!(
        show(api::manifest(&ctx, Ok(info(2)))).document,
        Some(Document::Manifest(m)) if m.size == 1
    ));
    let detail = RepoDetail {
        name: "a".to_string(),
        tags: Tally::exact(1),
        manifests: Tally::exact(1),
        blobs: Tally { count: 10_000, complete: false },
        size_bytes: 5,
    };
    assert!(matches!(
        show(api::repository(&ctx, Ok(detail))).document,
        Some(Document::Repository(d)) if !d.blobs.complete
    ));
    show(api::repository(&ctx, Err(OpsError::RepoUnknown))).assert_error(404, ErrorCode::NameUnknown);
    let event = TagEventInfo {
        at: 1,
        tag: "v1".to_string(),
        digest: Digest::Sha256([1; 32]),
        deleted: true,
        media_type: IMAGE_MANIFEST.to_string(),
        size: 3,
    };
    assert_eq!(event.event(), "deleted");
    let cursor = HistoryCursor { before: 1, last: "x".to_string() };
    match show(api::tag_history(&ctx, Ok((vec![event], Some(cursor))))).document {
        Some(Document::TagHistory { events, next }) => {
            assert_eq!(events.len(), 1);
            assert_eq!(next.map(|c| c.before), Some(1));
        }
        other => panic!("{other:?}"),
    }
}
