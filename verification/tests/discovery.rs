//! The `/api/v1/` surface over a registry that records what it is asked, and what
//! counts as a pull.

use summ::digest::Digest;
use summ::server::app::{route, Endpoint};
use summ::server::config::ServerConfig;
use summ::server::error::ErrorCode;
use summ::server::handlers::api::{handle, ApiEndpoint};
use summ::server::handlers::dispatch::dispatch;
use summ::server::handlers::pulls::{pull_of, Pull};
use summ::server::http::{Ctx, Document, Handled, Method, Reply, ReplyBody, Request};
use summ::server::memory::MemoryRegistry;
use summ::server::query;
use summ::server::range::ByteRange;
use summ::server::reference::Reference;
use summ::server::seam::{
    BlobRead, Discovery, HistoryCursor, ManifestInfo, ManifestPut, ManifestStat, OpsError,
    OpsResult, Page, Referrers, Registry, RepoDetail, RepoSummary, TagEventInfo, TagInfo, Tally,
    UploadBody,
};
use summ::storage::algorithm::DigestAlgorithm;
use summ::storage::hasher::digest_of;

fn d(b: u8) -> Digest {
    Digest::Sha256([b; 32])
}

// ---------------------------------------------------------------- harness --

/// Answers the web pages with two rows and more behind them, and nothing else.
struct Shown {
    asked: Vec<String>,
    unknown: bool,
}

fn info(b: u8) -> ManifestInfo {
    ManifestInfo {
        digest: d(b),
        media_type: "application/vnd.oci.image.manifest.v1+json".to_owned(),
        size: 7,
        blob_size: 0,
        artifact_type: None,
        subject: None,
        pushed_at: 1,
        platforms: Vec::new(),
        blobs: 0,
        children: 0,
        tags: Vec::new(),
        annotations: Vec::new(),
    }
}

fn summary(name: &str) -> RepoSummary {
    RepoSummary {
        name: name.to_owned(),
        tags: Tally::exact(1),
        manifests: Tally::exact(2),
    }
}

impl Shown {
    fn say<T>(&mut self, asked: String, answer: T) -> OpsResult<T> {
        self.asked.push(asked);
        if self.unknown {
            Err(OpsError::RepoUnknown)
        } else {
            Ok(answer)
        }
    }
}

fn page<T>(items: Vec<T>) -> Page<T> {
    Page { items, more: true }
}

impl Registry for Shown {
    type Body = Vec<u8>;
    type Content = Vec<u8>;
    type Holding = ();

    fn read_whole(&mut self, _: Vec<u8>, _: usize) -> Option<Vec<u8>> {
        unreachable!()
    }
    fn repositories(&mut self, _: Option<&str>, _: usize) -> OpsResult<Page<String>> {
        unreachable!()
    }
    fn tags(&mut self, _: &str, _: Option<&str>, _: usize) -> OpsResult<Page<String>> {
        unreachable!()
    }
    fn stat_manifest(&mut self, _: &str, _: &Reference) -> OpsResult<ManifestStat> {
        unreachable!()
    }
    fn get_manifest(&mut self, _: &str, _: &Reference) -> OpsResult<(ManifestStat, Vec<u8>)> {
        unreachable!()
    }
    fn put_manifest(
        &mut self,
        _: &str,
        _: &Reference,
        _: &str,
        _: &Vec<String>,
        _: Vec<u8>,
    ) -> OpsResult<ManifestPut> {
        unreachable!()
    }
    fn delete_manifest(&mut self, _: &str, _: &Reference) -> OpsResult<()> {
        unreachable!()
    }
    fn stat_blob(&mut self, _: &str, _: &Digest) -> OpsResult<u64> {
        unreachable!()
    }
    fn get_blob(&mut self, _: &str, _: &Digest, _: Option<ByteRange>) -> OpsResult<BlobRead<Vec<u8>>> {
        unreachable!()
    }
    fn delete_blob(&mut self, _: &str, _: &Digest) -> OpsResult<()> {
        unreachable!()
    }
    fn mount_blob(&mut self, _: &str, _: &Digest, _: Option<&str>) -> OpsResult<bool> {
        unreachable!()
    }
    fn create_upload(&mut self, _: &str, _: &str, _: &str) -> OpsResult<()> {
        unreachable!()
    }
    fn upload_offset(&mut self, _: &str, _: &str) -> OpsResult<u64> {
        unreachable!()
    }
    fn append_upload(&mut self, _: &str, _: &str, _: u64, _: UploadBody<Vec<u8>>) -> OpsResult<u64> {
        unreachable!()
    }
    fn finish_upload(
        &mut self,
        _: &str,
        _: &str,
        _: u64,
        _: UploadBody<Vec<u8>>,
        _: &Digest,
    ) -> OpsResult<()> {
        unreachable!()
    }
    fn cancel_upload(&mut self, _: &str, _: &str) -> OpsResult<()> {
        unreachable!()
    }
    fn put_blob(&mut self, _: &str, _: &Digest, _: UploadBody<Vec<u8>>) -> OpsResult<()> {
        unreachable!()
    }
    fn referrers(
        &mut self,
        _: &str,
        _: &Digest,
        _: Option<&str>,
        _: Option<&Digest>,
        _: usize,
    ) -> OpsResult<Referrers> {
        unreachable!()
    }
}

impl Discovery for Shown {
    fn repository_summaries(
        &mut self,
        prefix: &str,
        last: Option<&str>,
        limit: usize,
    ) -> OpsResult<Page<RepoSummary>> {
        let rows = page(vec![summary("demo/app"), summary("demo/web")]);
        self.say(format!("repositories {prefix:?} {last:?} {limit}"), rows)
    }

    fn repository_detail(&mut self, name: &str) -> OpsResult<RepoDetail> {
        let detail = RepoDetail {
            name: name.to_owned(),
            tags: Tally::exact(1),
            manifests: Tally::exact(2),
            blobs: Tally::exact(3),
            size_bytes: 4,
        };
        self.say(format!("repository {name}"), detail)
    }

    fn tag_details(
        &mut self,
        name: &str,
        last: Option<&str>,
        limit: usize,
    ) -> OpsResult<Page<TagInfo>> {
        let rows = page(vec![TagInfo {
            name: "v1".to_owned(),
            digest: d(1),
            tagged_at: 1,
            manifest: Some(info(1)),
        }]);
        self.say(format!("tags {name} {last:?} {limit}"), rows)
    }

    fn manifest_details(
        &mut self,
        name: &str,
        last: Option<&Digest>,
        limit: usize,
    ) -> OpsResult<Page<ManifestInfo>> {
        let rows = page(vec![info(1), info(2)]);
        let last = last.map(|d| d.to_text());
        self.say(format!("manifests {name} {last:?} {limit}"), rows)
    }

    fn manifest_detail(&mut self, name: &str, reference: &Reference) -> OpsResult<ManifestInfo> {
        self.say(format!("manifest {name} {reference:?}"), info(1))
    }

    fn tag_history(
        &mut self,
        name: &str,
        reference: &Reference,
        before: Option<u64>,
        last: Option<&str>,
        limit: usize,
    ) -> OpsResult<(Vec<TagEventInfo>, Option<HistoryCursor>)> {
        let cursor = HistoryCursor {
            before: 9,
            last: "v1".to_owned(),
        };
        self.say(
            format!("history {name} {reference:?} {before:?} {last:?} {limit}"),
            (Vec::new(), Some(cursor)),
        )
    }
}

fn asked_of(
    unknown: bool,
    method: Method,
    q: &str,
    endpoint: ApiEndpoint,
) -> (Vec<String>, Handled<Vec<u8>>) {
    let request = Request {
        method,
        path: "/api/v1/".to_owned(),
        query: query::pairs(q),
        headers: Vec::new(),
    };
    let config = ServerConfig::default();
    let ctx = Ctx {
        request: &request,
        config: &config,
    };
    let mut registry = Shown {
        asked: Vec::new(),
        unknown,
    };
    let handled = handle(&ctx, &mut registry, endpoint);
    (registry.asked, handled)
}

fn get(q: &str, endpoint: ApiEndpoint) -> (Vec<String>, Handled<Vec<u8>>) {
    asked_of(false, Method::Get, q, endpoint)
}

fn document(handled: Handled<Vec<u8>>) -> Document {
    let reply = handled.expect("an answer");
    assert_eq!(reply.status, 200);
    match reply.body {
        ReplyBody::Json { document, quiet } => {
            assert!(!quiet);
            document
        }
        other => panic!("expected a document, got {other:?}"),
    }
}

fn named(name: &str) -> String {
    name.to_owned()
}

// -------------------------------------------------------------- endpoints --

#[test]
fn a_repository_search_hands_its_prefix_and_its_page_on() {
    let (asked, handled) = get("q=demo&n=2&last=demo/a", ApiEndpoint::Repositories);
    assert_eq!(asked, ["repositories \"demo\" Some(\"demo/a\") 2"]);
    match document(handled) {
        Document::Repositories { repositories, next } => {
            assert_eq!(repositories.len(), 2);
            assert_eq!(next.as_deref(), Some("demo/web"));
        }
        other => panic!("expected repositories, got {other:?}"),
    }

    let (asked, _) = get("", ApiEndpoint::Repositories);
    assert_eq!(asked, ["repositories \"\" None 25"]);
}

#[test]
fn each_endpoint_asks_its_own_question_of_the_repository_it_names() {
    let name = || named("demo/app");
    let (asked, handled) = get("", ApiEndpoint::Repository { name: name() });
    assert_eq!(asked, ["repository demo/app"]);
    assert!(matches!(document(handled), Document::Repository(r) if r.size_bytes == 4));

    let (asked, handled) = get("n=1000", ApiEndpoint::Tags { name: name() });
    assert_eq!(asked, ["tags demo/app None 100"]);
    match document(handled) {
        Document::TagRows { tags, next } => {
            assert_eq!(tags.len(), 1);
            assert_eq!(next.as_deref(), Some("v1"));
        }
        other => panic!("expected tags, got {other:?}"),
    }

    let last = d(7).to_text();
    let (asked, handled) = get(&format!("n=2&last={last}"), ApiEndpoint::Manifests { name: name() });
    assert_eq!(asked, [format!("manifests demo/app Some({last:?}) 2")]);
    match document(handled) {
        Document::ManifestRows { next, .. } => assert_eq!(next, Some(d(2).to_text())),
        other => panic!("expected manifests, got {other:?}"),
    }

    let one = ApiEndpoint::Manifest {
        name: name(),
        reference: named("latest"),
    };
    let (asked, handled) = get("", one);
    assert_eq!(asked, [format!("manifest demo/app {:?}", Reference::Tag(named("latest")))]);
    assert!(matches!(document(handled), Document::Manifest(m) if m.digest == d(1)));

    let past = ApiEndpoint::TagHistory {
        name: name(),
        reference: d(3).to_text(),
    };
    let (asked, handled) = get("before=50&last=v2&n=3", past);
    assert_eq!(
        asked,
        [format!(
            "history demo/app {:?} Some(50) Some(\"v2\") 3",
            Reference::Digest(d(3))
        )]
    );
    match document(handled) {
        Document::TagHistory { events, next } => {
            assert!(events.is_empty());
            assert_eq!(next.map(|c| (c.before, c.last)), Some((9, named("v1"))));
        }
        other => panic!("expected a history, got {other:?}"),
    }
}

#[test]
fn a_refused_request_asks_the_registry_nothing() {
    for method in [Method::Post, Method::Put, Method::Patch, Method::Delete, Method::Other] {
        let (asked, handled) = asked_of(false, method, "", ApiEndpoint::Repositories);
        assert!(asked.is_empty());
        let e = handled.expect_err("a refusal");
        assert_eq!(e.status, 405);
        assert!(e.headers.contains(&(named("allow"), named("GET, HEAD"))));
    }
    let refused = [
        ("n=nope", ApiEndpoint::Repositories, 400),
        ("n=nope", ApiEndpoint::Tags { name: named("demo") }, 400),
        ("last=sha256:ABCD", ApiEndpoint::Manifests { name: named("demo") }, 400),
        (
            "",
            ApiEndpoint::Manifest { name: named("demo"), reference: named("sha256:zz") },
            400,
        ),
        (
            "before=soon",
            ApiEndpoint::TagHistory { name: named("demo"), reference: named("latest") },
            400,
        ),
    ];
    for (q, endpoint, status) in refused {
        let (asked, handled) = get(q, endpoint);
        assert!(asked.is_empty());
        assert_eq!(handled.expect_err("a refusal").status, status);
    }
}

#[test]
fn a_registry_that_does_not_know_the_repository_is_a_404() {
    let endpoint = ApiEndpoint::Repository { name: named("ghost") };
    let (asked, handled) = asked_of(true, Method::Get, "", endpoint);
    assert_eq!(asked, ["repository ghost"]);
    let e = handled.expect_err("an error");
    assert_eq!(e.status, 404);
    assert_eq!(e.body.map(|c| c.as_str()), Some(ErrorCode::NameUnknown.as_str()));
}

#[test]
fn a_head_on_a_listing_asks_and_stays_quiet() {
    let (asked, handled) = asked_of(false, Method::Head, "", ApiEndpoint::Repositories);
    assert_eq!(asked.len(), 1);
    let reply = handled.expect("an answer");
    assert!(matches!(reply.body, ReplyBody::Json { quiet: true, .. }));
}

// ------------------------------------------------------------------ pulls --

struct Pulled {
    config: ServerConfig,
    registry: MemoryRegistry,
}

impl Pulled {
    /// A request, answered, and what it pulled.
    fn send(
        &mut self,
        method: Method,
        path: &str,
        headers: Vec<(&str, &str)>,
        body: &[u8],
    ) -> (u16, Option<Pull>) {
        let (path, q) = path.split_once('?').unwrap_or((path, ""));
        let request = Request {
            method,
            path: path.to_owned(),
            query: query::pairs(q),
            headers: headers
                .into_iter()
                .map(|(k, v)| (k.to_owned(), v.to_owned()))
                .collect(),
        };
        let ctx = Ctx {
            request: &request,
            config: &self.config,
        };
        let handled = dispatch(&ctx, &mut self.registry, "session-1", body.to_vec());
        let endpoint = route(path).expect("an endpoint");
        let pull = pull_of(method, &endpoint, &handled);
        let status = match handled {
            Ok(reply) => reply.status,
            Err(e) => e.status,
        };
        (status, pull)
    }
}

const IMAGE: &str = "application/vnd.oci.image.manifest.v1+json";

fn pushed() -> (Pulled, Digest, Digest) {
    let mut p = Pulled {
        config: ServerConfig::default(),
        registry: MemoryRegistry::new(),
    };
    let bytes = br#"{"schemaVersion":2}"#;
    let manifest = digest_of(DigestAlgorithm::Sha256, bytes).unwrap();
    let blob = digest_of(DigestAlgorithm::Sha256, b"0123456789").unwrap();
    let put = p.send(
        Method::Put,
        "/v2/demo/app/manifests/latest",
        vec![("content-type", IMAGE)],
        bytes,
    );
    assert_eq!(put.0, 201);
    assert!(put.1.is_none(), "a push is no pull");
    let path = format!("/v2/demo/app/blobs/uploads/?digest={}", blob.to_text());
    let length = [("content-type", "application/octet-stream"), ("content-length", "10")];
    let up = p.send(Method::Post, &path, length.to_vec(), b"0123456789");
    assert_eq!(up.0, 201);
    assert!(up.1.is_none());
    (p, manifest, blob)
}

#[test]
fn a_manifest_is_pulled_by_a_get_and_counted_under_what_was_asked_for() {
    let (mut p, manifest, _) = pushed();
    let tag = "/v2/demo/app/manifests/latest";
    let by_digest = format!("/v2/demo/app/manifests/{}", manifest.to_text());
    match p.send(Method::Get, tag, Vec::new(), b"") {
        (200, Some(Pull::Manifest { repo, tag, digest })) => {
            assert_eq!(repo, "demo/app");
            assert_eq!(tag.as_deref(), Some("latest"));
            assert_eq!(digest, manifest);
        }
        other => panic!("expected a pull, got {other:?}"),
    }
    match p.send(Method::Get, &by_digest, Vec::new(), b"") {
        (200, Some(Pull::Manifest { tag, digest, .. })) => {
            assert_eq!(tag, None, "a pull by digest must not invent a tag");
            assert_eq!(digest, manifest);
        }
        other => panic!("expected a pull, got {other:?}"),
    }
    assert!(matches!(p.send(Method::Head, tag, Vec::new(), b""), (200, None)));
    let have = format!("\"{}\"", manifest.to_text());
    let kept = p.send(Method::Get, tag, vec![("if-none-match", have.as_str())], b"");
    assert!(matches!(kept, (304, None)), "nothing was sent");
    assert!(matches!(
        p.send(Method::Get, "/v2/demo/app/manifests/nope", Vec::new(), b""),
        (404, None)
    ));
}

#[test]
fn a_blob_is_pulled_whole_or_by_a_window_and_counted_for_its_repository() {
    let (mut p, _, blob) = pushed();
    let path = format!("/v2/demo/app/blobs/{}", blob.to_text());
    match p.send(Method::Get, &path, Vec::new(), b"") {
        (200, Some(Pull::Blob { repo })) => assert_eq!(repo, "demo/app"),
        other => panic!("expected a pull, got {other:?}"),
    }
    let window = p.send(Method::Get, &path, vec![("range", "bytes=2-4")], b"");
    assert!(matches!(window, (206, Some(Pull::Blob { .. }))));
    let behind = p.send(Method::Get, &path, vec![("range", "bytes=50-")], b"");
    assert!(matches!(behind, (416, None)));
    assert!(matches!(p.send(Method::Head, &path, Vec::new(), b""), (200, None)));
}

#[test]
fn an_answer_that_names_no_digest_pulled_no_manifest() {
    let endpoint = Endpoint::Manifest {
        name: named("demo"),
        reference: named("latest"),
    };
    let reply: Handled<Vec<u8>> = Ok(Reply {
        status: 200,
        headers: Vec::new(),
        body: ReplyBody::Bytes(Vec::new()),
    });
    assert!(pull_of(Method::Get, &endpoint, &reply).is_none());
}
