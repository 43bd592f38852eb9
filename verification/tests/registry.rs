//! The registry's operations over a store in memory.

use summ::digest::Digest;
use summ::error::SummError;
use summ::keys;
use summ::meta::engine::{MetaEngine, WriteBatch};
use summ::meta::memory_engine::MemoryEngine;
use summ::registry::codec::{
    decode_bucket, decode_event, decode_manifest, decode_referrer, decode_repo_blob, encode_bucket,
    encode_event, encode_manifest, encode_referrer, encode_repo_blob,
};
use summ::registry::codes;
use summ::registry::cosign::subject_of_artifact_tag;
use summ::registry::counters::{CountDelta, CountSubject};
use summ::registry::discovery::BlobReference;
use summ::registry::error::RegistryError;
use summ::registry::reference::{validate_tag, Reference};
use summ::registry::registry::Registry;
use summ::registry::suffix::{blob_ref_target, digest_after_repo, second_digest_after_repo};
use summ::storage::algorithm::DigestAlgorithm;
use summ::storage::hasher::digest_of;
use summ::time::Timestamp;
use summ::types::{
    ChildRef, CounterBucket, ManifestRecord, Platform, ReferrerRecord, RepoBlobRecord, TagEvent,
    TagEventKind,
};

type Reg = Registry<MemoryEngine>;

const OCI_MANIFEST: &str = "application/vnd.oci.image.manifest.v1+json";

fn d(b: u8) -> Digest {
    Digest::Sha256([b; 32])
}

fn sha256(bytes: &[u8]) -> Digest {
    digest_of(DigestAlgorithm::Sha256, bytes).unwrap()
}

fn at(secs: u64) -> Timestamp {
    Timestamp::from_secs(secs)
}

// --- fixtures ------------------------------------------------------------------

fn fixture() -> Reg {
    Registry::new(MemoryEngine::new())
}

/// The id of a repository, which is given one if it has none.
fn intern(reg: &mut Reg, repo: &str) -> u32 {
    if let Some(id) = reg.lookup_repo(repo).unwrap() {
        return id;
    }
    let page = reg.engine().scan(b"i", None, 1000).unwrap();
    let id = page.entries.len() as u32 + 1;
    let mut batch = WriteBatch::new();
    batch
        .put(keys::repo_by_name(repo), id.to_be_bytes().to_vec())
        .put(keys::repo_by_id(id), repo.as_bytes().to_vec());
    reg.apply(&batch).unwrap();
    id
}

/// Give a repository a blob.
fn upload(reg: &mut Reg, repo: &str, content: &str) -> (Digest, u64) {
    let id = intern(reg, repo);
    let digest = sha256(content.as_bytes());
    let size = content.len() as u64;
    let record = encode_repo_blob(&RepoBlobRecord { size, added_at: 1 }).unwrap();
    let mut batch = WriteBatch::new();
    batch
        .put(keys::blob(&digest), vec![1])
        .put(keys::repo_blob(id, &digest), record);
    reg.apply(&batch).unwrap();
    (digest, size)
}

struct Image {
    layers: Vec<Digest>,
    children: Vec<Digest>,
    subject: Option<Digest>,
    artifact_type: Option<String>,
}

fn image(layers: &[(Digest, u64)]) -> Image {
    Image {
        layers: layers.iter().map(|l| l.0).collect(),
        children: Vec::new(),
        subject: None,
        artifact_type: None,
    }
}

/// Write a manifest with every edge it implies, under a tag if one is given.
fn put(reg: &mut Reg, repo: &str, tag: Option<&str>, seed: &str, image: &Image) -> Digest {
    let id = intern(reg, repo);
    let digest = sha256(seed.as_bytes());
    let record = ManifestRecord {
        repo: id,
        digest,
        media_type: OCI_MANIFEST.to_string(),
        size: seed.len() as u64,
        total_layer_size: 0,
        platform: None,
        layers: image.layers.clone(),
        children: image
            .children
            .iter()
            .map(|c| ChildRef { digest: *c, platform: None })
            .collect(),
        subject: image.subject,
        artifact_type: image.artifact_type.clone(),
        annotations: vec![("org.example.author".to_string(), "ren".to_string())],
        pushed_at: 100,
    };
    let mut batch = WriteBatch::new();
    batch
        .put(keys::manifest(id, &digest), encode_manifest(&record).unwrap())
        .put(keys::manifest_body(id, &digest), seed.as_bytes().to_vec());
    for layer in &image.layers {
        batch.set(keys::blob_ref(layer, id, &digest));
    }
    for child in &image.children {
        batch.set(keys::child_parent(id, child, &digest));
    }
    if let Some(subject) = &image.subject {
        let edge = ReferrerRecord {
            media_type: OCI_MANIFEST.to_string(),
            artifact_type: image.artifact_type.clone(),
            size: seed.len() as u64,
            annotations: record.annotations.clone(),
        };
        batch.put(keys::referrer(id, subject, &digest), encode_referrer(&edge).unwrap());
    }
    if let Some(tag) = tag {
        batch
            .put(keys::tag(id, tag), digest.raw().to_vec())
            .set(keys::manifest_tag(id, &digest, tag));
    }
    reg.apply(&batch).unwrap();
    digest
}

// --- tags, references, suffixes ------------------------------------------------

fn hex(b: u8) -> String {
    format!("{b:02x}").repeat(32)
}

#[test]
fn recognises_the_three_cosign_suffixes() {
    for suffix in ["sig", "sbom", "att"] {
        let tag = format!("sha256-{}.{suffix}", hex(0xab));
        let subject = subject_of_artifact_tag(&tag).expect(suffix);
        assert_eq!(subject, Digest::Sha256([0xab; 32]));
    }
}

#[test]
fn sha512_artifact_tags_are_recognised_too() {
    let tag = format!("sha512-{}.sig", format!("{:02x}", 7).repeat(64));
    assert_eq!(subject_of_artifact_tag(&tag), Some(Digest::Sha512([7; 64])));
}

#[test]
fn an_ordinary_tag_is_never_mistaken_for_an_artifact() {
    for tag in [
        "latest",
        "v1.0.0",
        "sha256-notlongenough.sig",
        // The fallback tag schema has no suffix, so it stays an ordinary tag.
        &format!("sha256-{}", hex(1)),
        &format!("sha256-{}.tar", hex(1)),
    ] {
        assert_eq!(subject_of_artifact_tag(tag), None, "{tag}");
    }
}

#[test]
fn a_reference_with_a_colon_is_a_digest_even_when_it_is_a_bad_one() {
    let err = Reference::parse("sha256:baddigeststring").unwrap_err();
    assert_eq!(err.code(), codes::DIGEST_INVALID);
}

#[test]
fn tag_grammar_matches_the_spec() {
    for good in ["latest", "_v1", "v1.0.0-rc.1", "A", "0"] {
        assert!(Reference::parse(good).is_ok(), "{good}");
    }
    for bad in ["", ".hidden", "-lead", "has space", "has/slash"] {
        assert!(Reference::parse(bad).is_err(), "{bad}");
    }
    assert!(Reference::parse(&"a".repeat(128)).is_ok());
    assert!(Reference::parse(&"a".repeat(129)).is_err());
}

#[test]
fn a_well_formed_digest_parses_as_one() {
    let s = "sha256:".to_string() + &"ab".repeat(32);
    assert!(matches!(
        Reference::parse(&s).unwrap(),
        Reference::Digest(_)
    ));
}

#[test]
fn references_read_back_as_they_were_written() {
    let tag = Reference::parse("v1").unwrap();
    assert_eq!(tag.as_tag(), Some("v1"));
    assert_eq!(tag.as_digest(), None);
    assert_eq!(tag.to_text(), "v1");
    let s = "sha256:".to_string() + &"ab".repeat(32);
    let digest = Reference::parse(&s).unwrap();
    assert_eq!(digest.as_tag(), None);
    assert_eq!(digest.to_text(), s);
    assert!(validate_tag("ok").is_ok());
    assert_eq!(validate_tag("-no").unwrap_err().code(), codes::NAME_INVALID);
}

#[test]
fn suffixes_match_what_the_encoders_wrote() {
    assert_eq!(digest_after_repo(&keys::manifest(7, &d(1))), Some(d(1)));
    assert_eq!(digest_after_repo(&keys::repo_blob(7, &d(2))), Some(d(2)));
    assert_eq!(
        digest_after_repo(&keys::manifest_tag(7, &d(3), "latest")),
        Some(d(3))
    );
    assert_eq!(
        second_digest_after_repo(&keys::referrer(7, &d(4), &d(5))),
        Some(d(5))
    );
    assert_eq!(
        second_digest_after_repo(&keys::child_parent(7, &d(6), &d(7))),
        Some(d(7))
    );
    assert_eq!(
        blob_ref_target(&keys::blob_ref(&d(8), 9, &d(10))),
        Some((9, d(10)))
    );
}

#[test]
fn a_sha512_component_does_not_shift_the_tail() {
    let big = Digest::Sha512([1; 64]);
    assert_eq!(
        second_digest_after_repo(&keys::referrer(7, &big, &d(2))),
        Some(d(2))
    );
    assert_eq!(
        blob_ref_target(&keys::blob_ref(&big, 3, &d(4))),
        Some((3, d(4)))
    );
}

#[test]
fn a_truncated_key_decodes_to_nothing_rather_than_panicking() {
    assert_eq!(digest_after_repo(b"M"), None);
    assert_eq!(second_digest_after_repo(&keys::manifest(7, &d(1))), None);
    assert_eq!(blob_ref_target(b"R"), None);
}

#[test]
fn every_failure_has_its_code() {
    let r = || "a".to_string();
    let cases = [
        (RegistryError::NameUnknown { repo: r() }, "NAME_UNKNOWN"),
        (RegistryError::TagInvalid { tag: r(), reason: r() }, "NAME_INVALID"),
        (RegistryError::ManifestInvalid { reason: r() }, "MANIFEST_INVALID"),
        (RegistryError::ManifestUnknown { repo: r(), reference: r() }, "MANIFEST_UNKNOWN"),
        (RegistryError::ManifestBlobUnknown { repo: r(), digest: d(1) }, "MANIFEST_BLOB_UNKNOWN"),
        (RegistryError::DigestInvalid { reason: r() }, "DIGEST_INVALID"),
        (RegistryError::BlobUnknown { repo: r(), digest: d(1) }, "BLOB_UNKNOWN"),
        (RegistryError::Meta(SummError::NotFound), "UNKNOWN"),
    ];
    for (e, code) in cases {
        assert_eq!(e.code(), code);
    }
}

// --- stored records ------------------------------------------------------------

fn manifest_with(platform: Option<Platform>, children: Vec<ChildRef>) -> ManifestRecord {
    ManifestRecord {
        repo: 1,
        digest: d(2),
        media_type: "application/vnd.oci.image.manifest.v1+json".into(),
        size: 512,
        total_layer_size: 4096,
        platform,
        layers: vec![d(2)],
        children,
        subject: Some(d(2)),
        artifact_type: None,
        annotations: vec![("org.opencontainers.image.title".to_string(), "x".to_string())],
        pushed_at: 1_700_000_000,
    }
}

fn no_variant() -> Platform {
    Platform {
        os: "linux".into(),
        arch: "amd64".into(),
        variant: None,
    }
}

#[test]
fn a_platform_with_no_variant_roundtrips() {
    let m = manifest_with(Some(no_variant()), Vec::new());
    let bytes = encode_manifest(&m).expect("encode");
    let back = decode_manifest(&bytes).expect("decode");
    assert_eq!(back.platform, Some(no_variant()));
}

#[test]
fn an_enclosing_record_still_decodes_when_the_variant_is_absent() {
    let c = ChildRef {
        digest: Digest::Sha256([1u8; 32]),
        platform: Some(no_variant()),
    };
    let m = manifest_with(None, vec![c.clone()]);
    let bytes = encode_manifest(&m).expect("encode");
    let back = decode_manifest(&bytes).expect("decode");
    assert_eq!(back.children, vec![c]);
    assert_eq!(back, m);
}

#[test]
fn every_stored_record_roundtrips() {
    let m = manifest_with(
        Some(no_variant()),
        vec![ChildRef {
            digest: d(2),
            platform: None,
        }],
    );
    assert_eq!(decode_manifest(&encode_manifest(&m).unwrap()).unwrap(), m);
    let blob = RepoBlobRecord {
        size: 1,
        added_at: 2,
    };
    assert_eq!(decode_repo_blob(&encode_repo_blob(&blob).unwrap()).unwrap(), blob);
    let edge = ReferrerRecord {
        media_type: "application/vnd.oci.image.manifest.v1+json".into(),
        artifact_type: None,
        size: 7,
        annotations: vec![("org.opencontainers.image.title".to_string(), "x".to_string())],
    };
    assert_eq!(decode_referrer(&encode_referrer(&edge).unwrap()).unwrap(), edge);
    let event = TagEvent {
        event: TagEventKind::Created,
        media_type: "m".into(),
        size: 9,
    };
    assert_eq!(decode_event(&encode_event(&event).unwrap()).unwrap(), event);
    let mut bucket = CounterBucket::default();
    bucket.add(0, 1, 2, 3);
    bucket.add(23, 4, 5, 6);
    assert_eq!(decode_bucket(&encode_bucket(&bucket).unwrap()).unwrap(), bucket);
    // The all-zero bucket too.
    let empty = CounterBucket::default();
    assert_eq!(decode_bucket(&encode_bucket(&empty).unwrap()).unwrap(), empty);
}

#[test]
fn a_record_that_does_not_decode_is_a_failure_and_not_a_guess() {
    assert!(matches!(
        decode_manifest(b"\xff"),
        Err(RegistryError::Meta(SummError::InvalidData(m))) if m == "malformed stored record: ManifestRecord"
    ));
    assert!(decode_referrer(b"").is_err());
    assert!(decode_bucket(b"\x01").is_err());
    assert!(decode_event(b"\x09").is_err());
    assert!(decode_repo_blob(b"").is_err());
}

#[test]
fn buckets_add_up_and_stop_at_the_largest_number() {
    let mut bucket = CounterBucket::default();
    bucket.add(3, 1, 2, 3);
    bucket.add(3, u64::MAX, 0, u64::MAX);
    assert_eq!(bucket.manifest_pulls[3], u32::MAX);
    assert_eq!(bucket.bytes_out[3], u64::MAX);
    bucket.add(24, 9, 9, 9);
    assert_eq!(bucket.blob_pulls_total(), 2, "an hour there is not counts nothing");
    let mut other = CounterBucket::default();
    other.add(4, 5, 5, 5);
    other.merge(&bucket);
    assert_eq!(other.blob_pulls_total(), 7);
    assert_eq!(other.bytes_out_total(), u64::MAX);
}

// --- counters ------------------------------------------------------------------

fn delta(repo: &str, subject: CountSubject, day: u16, hour: usize) -> CountDelta {
    CountDelta {
        repo: repo.to_string(),
        subject,
        day,
        hour,
        manifest_pulls: 1,
        blob_pulls: 0,
        bytes_out: 0,
    }
}

/// A repo has to exist before its counters can be keyed.
fn seed_repo(reg: &mut Reg, repo: &str) -> Digest {
    let config = upload(reg, repo, "config");
    put(reg, repo, Some("latest"), "manifest", &image(&[config]))
}

#[test]
fn a_flush_folds_into_the_hour_it_names() {
    let mut reg = fixture();
    let digest = seed_repo(&mut reg, "demo");

    reg.add_pull_counts(&[
        delta("demo", CountSubject::Manifest(digest), 20_000, 3),
        delta("demo", CountSubject::Manifest(digest), 20_000, 3),
        delta("demo", CountSubject::Manifest(digest), 20_000, 17),
    ])
    .unwrap();

    let days = reg.manifest_counts("demo", &digest, 20_000, 1).unwrap();
    assert_eq!(days.len(), 1);
    assert_eq!(days[0].day, 20_000);
    assert_eq!(days[0].bucket.manifest_pulls[3], 2);
    assert_eq!(days[0].bucket.manifest_pulls[17], 1);
    assert_eq!(days[0].bucket.manifest_pulls[0], 0);
    // The day figure is the sum of the hours and is not stored anywhere.
    assert_eq!(days[0].bucket.manifest_pulls_total(), 3);
}

#[test]
fn a_second_flush_accumulates_onto_the_first() {
    let mut reg = fixture();
    let digest = seed_repo(&mut reg, "demo");

    for _ in 0..3 {
        reg.add_pull_counts(&[delta("demo", CountSubject::Manifest(digest), 20_000, 5)])
            .unwrap();
    }

    let days = reg.manifest_counts("demo", &digest, 20_000, 1).unwrap();
    assert_eq!(days[0].bucket.manifest_pulls[5], 3);
}

#[test]
fn a_flush_writes_one_key_per_bucket_however_many_deltas_it_holds() {
    let mut reg = fixture();
    let digest = seed_repo(&mut reg, "demo");

    let deltas: Vec<_> = (0..50)
        .map(|_| delta("demo", CountSubject::Manifest(digest), 20_000, 9))
        .collect();
    assert_eq!(reg.add_pull_counts(&deltas).unwrap(), 1);

    let days = reg.manifest_counts("demo", &digest, 20_000, 1).unwrap();
    assert_eq!(days[0].bucket.manifest_pulls[9], 50);
}

#[test]
fn the_three_scopes_are_separate_walls() {
    let mut reg = fixture();
    let digest = seed_repo(&mut reg, "demo");

    reg.add_pull_counts(&[
        delta("demo", CountSubject::Manifest(digest), 20_000, 1),
        delta("demo", CountSubject::Tag("latest".into()), 20_000, 1),
        CountDelta {
            blob_pulls: 2,
            bytes_out: 4096,
            manifest_pulls: 1,
            ..delta("demo", CountSubject::Repo, 20_000, 1)
        },
    ])
    .unwrap();

    assert_eq!(
        reg.manifest_counts("demo", &digest, 20_000, 1).unwrap()[0]
            .bucket
            .manifest_pulls_total(),
        1
    );
    assert_eq!(
        reg.tag_counts("demo", "latest", 20_000, 1).unwrap()[0]
            .bucket
            .manifest_pulls_total(),
        1
    );
    let repo = reg.repo_counts("demo", 20_000, 1).unwrap();
    assert_eq!(repo[0].bucket.blob_pulls_total(), 2);
    assert_eq!(repo[0].bucket.bytes_out_total(), 4096);

    // A tag's counters cannot be reached from a prefix-neighbour's scan.
    reg.add_pull_counts(&[delta(
        "demo",
        CountSubject::Tag("latest-arm".into()),
        20_000,
        1,
    )])
    .unwrap();
    assert_eq!(
        reg.tag_counts("demo", "latest", 20_000, 1).unwrap()[0]
            .bucket
            .manifest_pulls_total(),
        1
    );
}

#[test]
fn a_day_window_includes_both_of_its_ends_and_nothing_outside_them() {
    let mut reg = fixture();
    let digest = seed_repo(&mut reg, "demo");

    for day in [19_998_u16, 19_999, 20_000, 20_001, 20_002] {
        reg.add_pull_counts(&[delta("demo", CountSubject::Manifest(digest), day, 0)])
            .unwrap();
    }

    let days: Vec<u16> = reg
        .manifest_counts("demo", &digest, 19_999, 3)
        .unwrap()
        .iter()
        .map(|d| d.day)
        .collect();
    assert_eq!(days, vec![19_999, 20_000, 20_001]);

    // A single-day window is the degenerate case and still works.
    let one = reg.manifest_counts("demo", &digest, 20_002, 1).unwrap();
    assert_eq!(one.len(), 1);
    assert_eq!(one[0].day, 20_002);

    assert!(reg
        .manifest_counts("demo", &digest, 20_000, 0)
        .unwrap()
        .is_empty());
}

#[test]
fn a_window_returns_only_the_days_that_have_counts() {
    let mut reg = fixture();
    let digest = seed_repo(&mut reg, "demo");
    reg.add_pull_counts(&[delta("demo", CountSubject::Manifest(digest), 20_005, 0)])
        .unwrap();

    let days = reg.manifest_counts("demo", &digest, 20_000, 30).unwrap();
    assert_eq!(days.len(), 1);
    assert_eq!(days[0].day, 20_005);
}

#[test]
fn an_unknown_repository_is_an_empty_series() {
    let reg = fixture();
    let digest = sha256(b"nothing");
    assert!(reg
        .manifest_counts("ghost", &digest, 20_000, 30)
        .unwrap()
        .is_empty());
    assert!(reg.repo_counts("ghost", 20_000, 30).unwrap().is_empty());
    assert!(reg
        .tag_counts("ghost", "latest", 20_000, 30)
        .unwrap()
        .is_empty());
}

#[test]
fn a_flush_never_interns_a_repository() {
    let mut reg = fixture();
    let digest = sha256(b"nothing");

    assert_eq!(
        reg.add_pull_counts(&[delta("ghost", CountSubject::Manifest(digest), 20_000, 0)])
            .unwrap(),
        0
    );
    let repos = reg.list_repos(None, 10).unwrap();
    assert!(repos.repos.is_empty(), "{:?}", repos.repos);
}

// --- deletes -------------------------------------------------------------------

#[test]
fn flushing_twice_stores_what_flushing_once_does() {
    let day = |subject, day, hour| delta("demo", subject, day, hour);
    let first = vec![
        day(CountSubject::Repo, 20_000, 3),
        day(CountSubject::Tag("v1".to_string()), 20_000, 3),
        day(CountSubject::Repo, 20_000, 3),
    ];
    let second = vec![
        day(CountSubject::Repo, 20_000, 4),
        day(CountSubject::Repo, 20_001, 0),
        delta("ghost", CountSubject::Repo, 20_000, 3),
    ];
    let (mut twice, mut once) = (fixture(), fixture());
    seed_repo(&mut twice, "demo");
    seed_repo(&mut once, "demo");
    assert_eq!(twice.add_pull_counts(&first).unwrap(), 2);
    assert_eq!(twice.add_pull_counts(&second).unwrap(), 2);
    let mut both = first;
    both.extend(second);
    // One value for each bucket of a repository that is there.
    assert_eq!(once.add_pull_counts(&both).unwrap(), 3);

    let all = |reg: &Reg| reg.engine().scan(b"", None, 10_000).unwrap().entries;
    assert_eq!(all(&twice), all(&once));
}

#[test]
fn nothing_to_add_and_no_days_to_show_touch_nothing() {
    let mut reg = fixture();
    seed_repo(&mut reg, "demo");
    let before = reg.engine().scan(b"", None, 10_000).unwrap().entries;
    assert_eq!(reg.add_pull_counts(&[]).unwrap(), 0);
    assert_eq!(reg.engine().scan(b"", None, 10_000).unwrap().entries, before);
    assert!(reg.repo_counts("demo", 20_000, 0).unwrap().is_empty());
    assert!(reg.tag_counts("demo", "v1", 20_000, 0).unwrap().is_empty());
    assert!(reg.manifest_counts("demo", &d(1), 20_000, 0).unwrap().is_empty());
}

#[test]
fn deleting_a_manifest_removes_every_edge_and_leaves_it_purgeable() {
    let mut reg = fixture();
    let config = upload(&mut reg, "demo/app", "config");
    let layer = upload(&mut reg, "demo/app", "layer");
    let subject = {
        let c = upload(&mut reg, "demo/app", "subject-config");
        put(&mut reg, "demo/app", None, "subject", &image(&[c]))
    };

    let body = Image { subject: Some(subject), ..image(&[config, layer]) };
    let digest = put(&mut reg, "demo/app", Some("v1"), "body", &body);
    put(&mut reg, "demo/app", Some("also"), "body", &body);

    let deleted = reg.delete_manifest("demo/app", &digest, at(300)).unwrap();
    let mut tags = deleted.removed_tags.clone();
    tags.sort();
    assert_eq!(tags, ["also", "v1"]);

    let repo = reg.lookup_repo("demo/app").unwrap().unwrap();
    let engine = reg.engine();
    assert!(
        engine
            .get(&keys::manifest(repo, &digest))
            .unwrap()
            .is_none(),
        "M"
    );
    assert!(
        engine
            .get(&keys::manifest_body(repo, &digest))
            .unwrap()
            .is_none(),
        "B"
    );
    for (blob, _) in [config, layer] {
        assert!(
            !engine
                .exists_prefix(&keys::blob_ref(&blob, repo, &digest))
                .unwrap(),
            "R edge for {blob:?}"
        );
    }
    assert!(
        !engine
            .exists_prefix(&keys::referrer(repo, &subject, &digest))
            .unwrap(),
        "F edge to the subject"
    );
    for tag in ["v1", "also"] {
        assert!(
            engine.get(&keys::tag(repo, tag)).unwrap().is_none(),
            "T {tag}"
        );
    }
    assert!(
        !engine
            .exists_prefix(&keys::tags_of_manifest(repo, &digest))
            .unwrap(),
        "G edges"
    );

    // Purge keys off "is it tagged?" and "is the blob still referenced?", and both
    // must now answer no.
    assert!(!engine.exists_prefix(&keys::blob_refs(&config.0)).unwrap());
    assert!(reg.manifest_record(repo, &digest).unwrap().is_none());

    // Blob membership survives: `P` is the repo's blob set, not one manifest's.
    assert!(engine
        .get(&keys::repo_blob(repo, &config.0))
        .unwrap()
        .is_some());
}

#[test]
fn deleting_a_manifest_writes_a_history_event_for_every_tag_it_took_with_it() {
    let mut reg = fixture();
    let config = upload(&mut reg, "demo/app", "config");
    let digest = put(&mut reg, "demo/app", Some("v1"), "body", &image(&[config]));

    reg.delete_manifest("demo/app", &digest, at(300)).unwrap();
    let repo = reg.lookup_repo("demo/app").unwrap().unwrap();
    let event = decode_event(
        &reg.engine()
            .get(&keys::tag_history(repo, "v1", at(300), &digest))
            .unwrap()
            .expect("a cascaded tag removal is still an audited event"),
    )
    .unwrap();
    assert_eq!(event.event, TagEventKind::Deleted);
}

#[test]
fn deleting_an_index_child_clears_the_edge_in_both_directions() {
    let mut reg = fixture();
    let config = upload(&mut reg, "demo/app", "config");
    let child = put(&mut reg, "demo/app", None, "child", &image(&[config]));
    let index_body = Image { children: vec![child], ..image(&[]) };
    let index = put(&mut reg, "demo/app", Some("multi"), "index", &index_body);

    let repo = reg.lookup_repo("demo/app").unwrap().unwrap();
    reg.delete_manifest("demo/app", &child, at(300)).unwrap();
    assert!(
        !reg.engine()
            .exists_prefix(&keys::child_parent(repo, &child, &index))
            .unwrap(),
        "an S edge to a manifest that no longer exists is a dangling edge"
    );

    // Deleting the index next must also work: nothing refuses a delete because
    // something references it.
    reg.delete_manifest("demo/app", &index, at(400)).unwrap();
}

#[test]
fn a_referrer_survives_the_deletion_of_its_subject() {
    let mut reg = fixture();
    let c = upload(&mut reg, "demo/app", "subject-config");
    let subject = put(&mut reg, "demo/app", None, "subject", &image(&[c]));
    let s = upload(&mut reg, "demo/app", "sig");
    let sig_body = Image {
        subject: Some(subject),
        artifact_type: Some("application/vnd.example.sig".to_string()),
        ..image(&[s])
    };
    let sig = put(&mut reg, "demo/app", None, "sig", &sig_body);

    reg.delete_manifest("demo/app", &subject, at(300)).unwrap();

    // A subject may dangle, and the referrer is still a real manifest, so its edge
    // stays.
    let list = reg.referrers("demo/app", &subject, None, None, 10).unwrap();
    assert_eq!(
        list.entries.iter().map(|e| e.digest).collect::<Vec<_>>(),
        vec![sig]
    );
}

#[test]
fn deleting_a_manifest_that_is_not_there_is_manifest_unknown() {
    let mut reg = fixture();
    let _ = upload(&mut reg, "demo/app", "config");
    let err = reg
        .delete_manifest("demo/app", &sha256(b"nope"), at(300))
        .unwrap_err();
    assert_eq!(err.code(), "MANIFEST_UNKNOWN");

    let err = reg
        .delete_manifest("no/such", &sha256(b"nope"), at(300))
        .unwrap_err();
    assert_eq!(err.code(), "NAME_UNKNOWN");
}

#[test]
fn deleting_a_blob_reference_makes_the_blob_unservable_immediately() {
    let mut reg = fixture();
    let config = upload(&mut reg, "demo/app", "config");
    put(&mut reg, "demo/app", Some("v1"), "body", &image(&[config]));

    // Out-of-order delete: the manifest is still there, so both halves of the
    // servability predicate have to be cleared.
    let out = reg.delete_blob_reference("demo/app", &config.0).unwrap();
    assert!(out.was_member);
    assert_eq!(out.references_removed, 1);
    let repo = reg.lookup_repo("demo/app").unwrap().unwrap();
    assert!(reg.engine().get(&keys::repo_blob(repo, &config.0)).unwrap().is_none());
    assert!(!reg
        .engine()
        .exists_prefix(&keys::blob_refs_in_repo(&config.0, repo))
        .unwrap());

    // The global blob record is purge's business, not this operation's.
    assert!(reg.engine().get(&keys::blob(&config.0)).unwrap().is_some());
}

#[test]
fn deleting_a_blob_reference_that_does_not_exist_is_blob_unknown() {
    let mut reg = fixture();
    let _ = upload(&mut reg, "demo/app", "config");
    let err = reg
        .delete_blob_reference("demo/app", &sha256(b"elsewhere"))
        .unwrap_err();
    assert_eq!(err.code(), "BLOB_UNKNOWN");
}

#[test]
fn a_plan_writes_nothing_until_it_is_applied() {
    let mut reg = fixture();
    let config = upload(&mut reg, "demo/app", "config");
    let digest = put(&mut reg, "demo/app", Some("v1"), "body", &image(&[config]));
    let repo = reg.lookup_repo("demo/app").unwrap().unwrap();
    let planned = reg.plan_manifest_delete("demo/app", &digest, at(300)).unwrap();
    assert!(reg.manifest_record(repo, &digest).unwrap().is_some());
    reg.apply(&planned.batch).unwrap();
    assert!(reg.manifest_record(repo, &digest).unwrap().is_none());
}

// --- discovery -----------------------------------------------------------------

#[test]
fn repositories_page_in_name_order() {
    let mut reg = fixture();
    // Numbered in an order that is not name order.
    for repo in ["zeta/app", "alpine/base", "nginx/web", "beta/app"] {
        let _ = upload(&mut reg, repo, "config");
    }

    let first = reg.list_repos(None, 2).unwrap();
    assert_eq!(first.repos, ["alpine/base", "beta/app"]);
    assert_eq!(first.next.as_deref(), Some("beta/app"));

    let second = reg.list_repos(first.next.as_deref(), 2).unwrap();
    assert_eq!(second.repos, ["nginx/web", "zeta/app"]);
    assert_eq!(second.next, None);

    assert_eq!(reg.list_repos(None, 10).unwrap().repos.len(), 4);
}

#[test]
fn a_search_narrows_by_prefix() {
    let mut reg = fixture();
    for repo in ["nginx", "nginx/extra", "ng", "alpine"] {
        let _ = upload(&mut reg, repo, "config");
    }
    assert_eq!(reg.search_repos("ngi", None, 10).unwrap().repos, ["nginx", "nginx/extra"]);
    assert_eq!(reg.search_repos("ngi", Some("nginx"), 10).unwrap().repos, ["nginx/extra"]);
    assert!(reg.search_repos("zz", None, 10).unwrap().repos.is_empty());
}

fn numbered(reg: &mut Reg, repo: &str, seed: &str, tag: Option<&str>) -> Digest {
    let config = upload(reg, repo, &format!("config-{seed}"));
    put(reg, repo, tag, &format!("{repo} {seed}"), &image(&[config]))
}

#[test]
fn manifests_page_in_digest_order_and_stay_inside_the_repo() {
    let mut reg = fixture();
    let mut here: Vec<_> = (0..5)
        .map(|i| numbered(&mut reg, "demo/app", &format!("m{i}"), None))
        .collect();
    here.sort();
    let elsewhere = numbered(&mut reg, "other/app", "x", None);

    let mut seen = Vec::new();
    let mut cursor: Option<Digest> = None;
    loop {
        let page = reg.list_manifests("demo/app", cursor.as_ref(), 2).unwrap();
        assert!(page.manifests.len() <= 2);
        seen.extend(page.manifests.iter().map(|m| m.digest));
        match page.next {
            Some(next) => cursor = Some(next),
            None => break,
        }
    }
    assert_eq!(seen, here);
    assert!(!seen.contains(&elsewhere));
}

#[test]
fn repo_usage_and_manifest_count_fold_across_pages() {
    let mut reg = fixture();
    let mut expected_bytes = 0u64;
    for i in 0..5 {
        let content = "x".repeat(10 + i);
        expected_bytes += content.len() as u64;
        upload(&mut reg, "demo/app", &content);
    }
    for i in 0..3 {
        numbered(&mut reg, "demo/app", &format!("m{i}"), None);
    }
    // Each image push adds its own config blob to `P` as well.
    for i in 0..3 {
        expected_bytes += format!("config-m{i}").len() as u64;
    }

    let mut blobs = 0;
    let mut bytes = 0;
    let mut cursor: Option<Digest> = None;
    loop {
        let page = reg.repo_usage("demo/app", cursor.as_ref(), 3).unwrap();
        blobs += page.blobs;
        bytes += page.bytes;
        match page.next {
            Some(next) => cursor = Some(next),
            None => break,
        }
    }
    assert_eq!(blobs, 8);
    assert_eq!(bytes, expected_bytes);

    let mut manifests = 0;
    let mut cursor: Option<Digest> = None;
    loop {
        let page = reg.count_manifests("demo/app", cursor.as_ref(), 2).unwrap();
        assert!(page.manifests <= 2);
        manifests += page.manifests;
        match page.next {
            Some(next) => cursor = Some(next),
            None => break,
        }
    }
    assert_eq!(manifests, 3);
}

#[test]
fn a_shared_layer_lists_every_manifest_that_references_it() {
    let mut reg = fixture();
    let bytes = "a widely shared base layer";
    let shared = upload(&mut reg, "demo/app", bytes);
    upload(&mut reg, "other/app", bytes);

    let mut expected = Vec::new();
    for repo in ["demo/app", "other/app"] {
        let config = upload(&mut reg, repo, &format!("config-{repo}"));
        let manifest = put(
            &mut reg,
            repo,
            Some("v1"),
            &format!("body-{repo}"),
            &image(&[config, shared]),
        );
        expected.push(BlobReference {
            repo: repo.to_string(),
            manifest,
        });
    }

    let mut seen = Vec::new();
    let mut cursor = None;
    loop {
        let page = reg
            .manifests_referencing_blob(&shared.0, cursor.as_ref(), 1)
            .unwrap();
        assert!(page.references.len() <= 1);
        seen.extend(page.references.clone());
        match page.next {
            Some(next) => cursor = Some(next),
            None => break,
        }
    }
    assert_eq!(seen.len(), 2);
    for reference in &expected {
        assert!(seen.contains(reference), "{reference:?}");
    }
}

#[test]
fn untagged_manifests_page_without_exceeding_the_limit() {
    let mut reg = fixture();
    let tagged = numbered(&mut reg, "demo/app", "kept", Some("v1"));
    let mut untagged: Vec<_> = (0..4)
        .map(|i| numbered(&mut reg, "demo/app", &format!("loose{i}"), None))
        .collect();
    untagged.sort();

    let mut seen = Vec::new();
    let mut cursor: Option<Digest> = None;
    loop {
        let page = reg
            .untagged_manifests("demo/app", cursor.as_ref(), 2)
            .unwrap();
        assert!(page.digests.len() <= 2);
        seen.extend(page.digests);
        match page.next {
            Some(next) => cursor = Some(next),
            None => break,
        }
    }
    assert_eq!(seen, untagged);
    assert!(!seen.contains(&tagged));
}

#[test]
fn tags_and_parents_are_counted_and_listed() {
    let mut reg = fixture();
    let child = numbered(&mut reg, "demo/app", "child", Some("v1"));
    let index = put(
        &mut reg,
        "demo/app",
        Some("v2"),
        "index",
        &Image { children: vec![child], ..image(&[]) },
    );
    assert_eq!(reg.count_tags("demo/app", None, 10).unwrap().tags, 2);
    let parents = reg.parents_of_manifest("demo/app", &child, None, 10).unwrap();
    assert_eq!(parents.digests, [index]);
    assert_eq!(reg.count_tags("no/such", None, 10).unwrap_err().code(), "NAME_UNKNOWN");
}

// --- referrers -----------------------------------------------------------------

const SIGNATURE: &str = "application/vnd.dev.cosign.artifact.sig.v1+json";
const SBOM: &str = "application/vnd.example.sbom.v1+json";

fn subject_manifest(reg: &mut Reg, repo: &str) -> Digest {
    let config = upload(reg, repo, "subject-config");
    put(reg, repo, None, "subject", &image(&[config]))
}

fn referrer(reg: &mut Reg, repo: &str, subject: Digest, artifact_type: &str, n: usize) -> Digest {
    let config = upload(reg, repo, &format!("cfg-{artifact_type}"));
    let body = Image {
        subject: Some(subject),
        artifact_type: Some(artifact_type.to_string()),
        ..image(&[config])
    };
    put(reg, repo, None, &format!("{artifact_type} {n}"), &body)
}

#[test]
fn a_subject_writes_an_edge_carrying_the_referrers_descriptor() {
    let mut reg = fixture();
    let subject = subject_manifest(&mut reg, "demo/app");
    let sig = referrer(&mut reg, "demo/app", subject, SIGNATURE, 0);

    let list = reg.referrers("demo/app", &subject, None, None, 10).unwrap();
    assert_eq!(list.entries.len(), 1);
    let entry = &list.entries[0];
    assert_eq!(entry.digest, sig);
    assert_eq!(entry.record.artifact_type.as_deref(), Some(SIGNATURE));
    assert_eq!(entry.record.media_type, OCI_MANIFEST);
    assert_eq!(
        entry
            .record
            .annotations
            .iter()
            .find(|(k, _)| k == "org.example.author")
            .map(|(_, v)| v.as_str()),
        Some("ren")
    );
    assert!(entry.record.size > 0);
    assert!(!list.filter_applied);
}

#[test]
fn the_artifact_type_filter_is_applied_during_the_scan() {
    let mut reg = fixture();
    let subject = subject_manifest(&mut reg, "demo/app");
    let sig = referrer(&mut reg, "demo/app", subject, SIGNATURE, 0);
    let sbom = referrer(&mut reg, "demo/app", subject, SBOM, 0);

    let all = reg.referrers("demo/app", &subject, None, None, 10).unwrap();
    let mut seen: Vec<_> = all.entries.iter().map(|e| e.digest).collect();
    seen.sort();
    let mut expected = vec![sig, sbom];
    expected.sort();
    assert_eq!(seen, expected);

    let filtered = reg
        .referrers("demo/app", &subject, Some(SIGNATURE), None, 10)
        .unwrap();
    assert_eq!(filtered.entries.len(), 1);
    assert_eq!(filtered.entries[0].digest, sig);
    assert!(
        filtered.filter_applied,
        "the response must be entitled to say OCI-Filters-Applied"
    );

    let none = reg
        .referrers(
            "demo/app",
            &subject,
            Some("application/vnd.nothing"),
            None,
            10,
        )
        .unwrap();
    assert!(none.entries.is_empty());
}

#[test]
fn a_subject_that_does_not_exist_is_accepted_and_still_listed() {
    let mut reg = fixture();
    let ghost = sha256(b"pushed later, or never");
    let sig = referrer(&mut reg, "demo/app", ghost, SIGNATURE, 0);

    let list = reg.referrers("demo/app", &ghost, None, None, 10).unwrap();
    assert_eq!(list.entries.len(), 1);
    assert_eq!(list.entries[0].digest, sig);
}

#[test]
fn an_unknown_repo_or_subject_is_an_empty_list_and_never_an_error() {
    let mut reg = fixture();
    let empty = reg
        .referrers("nope/nope", &sha256(b"x"), None, None, 10)
        .unwrap();
    assert!(empty.entries.is_empty() && empty.next.is_none());

    let _ = subject_manifest(&mut reg, "demo/app");
    let none = reg
        .referrers("demo/app", &sha256(b"unheard of"), None, None, 10)
        .unwrap();
    assert!(none.entries.is_empty());
}

#[test]
fn referrers_page_without_exceeding_the_limit() {
    let mut reg = fixture();
    let subject = subject_manifest(&mut reg, "demo/app");
    for i in 0..5 {
        referrer(&mut reg, "demo/app", subject, SIGNATURE, i);
    }

    let mut seen = Vec::new();
    let mut cursor: Option<Digest> = None;
    loop {
        let page = reg
            .referrers("demo/app", &subject, None, cursor.as_ref(), 2)
            .unwrap();
        assert!(
            page.entries.len() <= 2,
            "a page must never exceed its limit"
        );
        seen.extend(page.entries.iter().map(|e| e.digest));
        match page.next {
            Some(next) => cursor = Some(next),
            None => break,
        }
    }
    assert_eq!(seen.len(), 5);
    let mut sorted = seen.clone();
    sorted.sort();
    assert_eq!(seen, sorted, "referrers arrive in digest order");
}

#[test]
fn following_next_shows_every_wanted_referrer_once_in_digest_order() {
    let mut reg = fixture();
    let subject = subject_manifest(&mut reg, "demo");
    let mut wanted = Vec::new();
    for n in 0..17 {
        let kind = if n % 3 == 0 { "application/vnd.sbom" } else { "application/vnd.sig" };
        let digest = referrer(&mut reg, "demo", subject, kind, n);
        if n % 3 == 0 {
            wanted.push(digest);
        }
    }
    wanted.sort();
    for limit in [1, 2, 5, 17, 40] {
        let mut seen = Vec::new();
        let mut last: Option<Digest> = None;
        loop {
            let list = reg
                .referrers("demo", &subject, Some("application/vnd.sbom"), last.as_ref(), limit)
                .unwrap();
            assert!(list.entries.len() <= limit);
            assert!(list.filter_applied);
            seen.extend(list.entries.iter().map(|e| e.digest));
            last = list.next;
            if last.is_none() {
                break;
            }
        }
        assert_eq!(seen, wanted, "limit {limit}");
    }
}
