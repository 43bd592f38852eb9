use summ::digest::{encoded_len_of, Digest};
use summ::keys::{
    blob_ref, blob_refs, blob_refs_in_repo, blobs_in_repo, child_parent, manifest, manifest_tag,
    manifests_in_repo, parents_of, parse_manifest_tag_suffix, parse_repo_id, parse_repo_name,
    parse_tag_suffix, referrer, referrers_of, repo_blob, repo_by_id, repo_by_name, repos_by_name,
    tag, tags_in_repo, tags_of_manifest, PREFIX_BLOB, PREFIX_BLOB_REF, PREFIX_CHILD_PARENT,
    PREFIX_COUNTER, PREFIX_MANIFEST, PREFIX_MANIFEST_BODY, PREFIX_MANIFEST_TAG,
    PREFIX_MANIFEST_TAG_HISTORY, PREFIX_REFERRER, PREFIX_REPO_BLOB, PREFIX_REPO_BY_ID,
    PREFIX_REPO_BY_NAME, PREFIX_TAG, PREFIX_TAG_HISTORY, PREFIX_UPLOAD,
};
use summ::keys;
use summ::time::Timestamp;

fn d(b: u8) -> Digest {
    Digest::Sha256([b; 32])
}

// --- digests -------------------------------------------------------------------

#[test]
fn sha256_roundtrips_through_string() {
    let s = "sha256:".to_string() + &"ab".repeat(32);
    let d = Digest::parse(&s).unwrap();
    assert_eq!(d.to_text(), s);
}

#[test]
fn sha512_roundtrips_through_string() {
    let s = "sha512:".to_string() + &"3f".repeat(64);
    let d = Digest::parse(&s).unwrap();
    assert_eq!(d.to_text(), s);
}

#[test]
fn encoded_len_of_agrees_with_the_encoder() {
    for d in [Digest::Sha256([0; 32]), Digest::Sha512([0; 64])] {
        let mut buf = Vec::new();
        d.encode_into(&mut buf);
        assert_eq!(encoded_len_of(buf[0]), Some(d.encoded_len()));
    }
    assert_eq!(encoded_len_of(0), None);
    assert_eq!(encoded_len_of(99), None);
}

#[test]
fn key_encoding_roundtrips_and_reports_length() {
    for d in [Digest::Sha256([7u8; 32]), Digest::Sha512([9u8; 64])] {
        let mut buf = Vec::new();
        d.encode_into(&mut buf);
        assert_eq!(buf.len(), d.encoded_len());
        let (back, used) = Digest::decode(&buf).unwrap();
        assert_eq!(back, d);
        assert_eq!(used, buf.len());
    }
}

#[test]
fn rejects_unknown_algorithm_and_bad_length() {
    assert!(Digest::parse("md5:abcd").is_err());
    assert!(Digest::parse("sha256:ab").is_err());
    assert!(Digest::parse("sha256").is_err());
}

#[test]
fn raw_byte_order_matches_hex_order() {
    let lo = Digest::parse(&("sha256:".to_string() + &"00".repeat(32))).unwrap();
    let hi = Digest::parse(&("sha256:".to_string() + &"ff".repeat(32))).unwrap();
    assert!(lo < hi);
    assert!(lo.to_text() < hi.to_text());
}

#[test]
fn a_bad_digest_says_what_is_wrong_with_it() {
    let words = |s: &str| Digest::parse(s).unwrap_err().message();
    assert_eq!(words("sha256"), "invalid digest: missing algorithm separator: sha256");
    assert_eq!(words("md5:abcd"), "invalid digest: unsupported algorithm \"md5\"");
    assert_eq!(
        words("sha256:ab"),
        "invalid digest: expected 64 hex chars, got 2: sha256:ab"
    );
    let odd = "sha256:".to_string() + &"zz".repeat(32);
    assert_eq!(
        words(&odd),
        format!("invalid digest: invalid hex in {odd}: invalid digit found in string")
    );
}

#[test]
fn uppercase_digests_read_back_in_lowercase() {
    let d = Digest::parse(&("sha256:".to_string() + &"AB".repeat(32))).unwrap();
    assert_eq!(d.to_text(), "sha256:".to_string() + &"ab".repeat(32));
}

#[test]
fn a_cut_off_digest_does_not_decode() {
    let mut buf = Vec::new();
    d(4).encode_into(&mut buf);
    buf.pop();
    assert!(Digest::decode(&buf).is_none());
    assert!(Digest::decode(&[]).is_none());
    assert!(Digest::decode(&[9; 80]).is_none());
}

// --- keys ----------------------------------------------------------------------

#[test]
fn every_prefix_is_distinct() {
    let all = [
        PREFIX_MANIFEST,
        PREFIX_MANIFEST_BODY,
        PREFIX_TAG,
        PREFIX_MANIFEST_TAG,
        PREFIX_BLOB,
        PREFIX_BLOB_REF,
        PREFIX_REPO_BLOB,
        PREFIX_CHILD_PARENT,
        PREFIX_REFERRER,
        PREFIX_UPLOAD,
        PREFIX_REPO_BY_NAME,
        PREFIX_REPO_BY_ID,
        PREFIX_TAG_HISTORY,
        PREFIX_MANIFEST_TAG_HISTORY,
        PREFIX_COUNTER,
    ];
    let mut seen = all.to_vec();
    seen.sort_unstable();
    seen.dedup();
    assert_eq!(seen.len(), all.len(), "prefix collision");
}

#[test]
fn scan_prefixes_actually_prefix_their_keys() {
    assert!(manifest(7, &d(1)).starts_with(&manifests_in_repo(7)));
    assert!(tag(7, "latest").starts_with(&tags_in_repo(7)));
    assert!(manifest_tag(7, &d(1), "latest").starts_with(&tags_of_manifest(7, &d(1))));
    assert!(blob_ref(&d(1), 7, &d(2)).starts_with(&blob_refs(&d(1))));
    assert!(blob_ref(&d(1), 7, &d(2)).starts_with(&blob_refs_in_repo(&d(1), 7)));
    assert!(repo_blob(7, &d(1)).starts_with(&blobs_in_repo(7)));
    assert!(child_parent(7, &d(1), &d(2)).starts_with(&parents_of(7, &d(1))));
    assert!(referrer(7, &d(1), &d(2)).starts_with(&referrers_of(7, &d(1))));
    assert!(repo_by_name("alpine").starts_with(&repos_by_name()));
}

#[test]
fn a_repos_scan_cannot_reach_its_neighbour() {
    assert!(!manifest(8, &d(1)).starts_with(&manifests_in_repo(7)));
    assert!(!tag(8, "latest").starts_with(&tags_in_repo(7)));
    assert!(!blob_ref(&d(1), 8, &d(2)).starts_with(&blob_refs_in_repo(&d(1), 7)));
}

#[test]
fn tags_sort_by_name_within_a_repo() {
    let mut keys = [tag(1, "v2"), tag(1, "latest"), tag(1, "alpha")];
    keys.sort();
    let names: Vec<_> = keys.iter().map(|k| parse_tag_suffix(k).unwrap()).collect();
    assert_eq!(names, ["alpha", "latest", "v2"]);
}

#[test]
fn repos_sort_by_name_for_catalog_paging() {
    let mut keys = [
        repo_by_name("zeta"),
        repo_by_name("alpine"),
        repo_by_name("nginx"),
    ];
    keys.sort();
    let names: Vec<_> = keys.iter().map(|k| parse_repo_name(k).unwrap()).collect();
    assert_eq!(names, ["alpine", "nginx", "zeta"]);
}

#[test]
fn tag_suffix_survives_a_sha512_digest() {
    let big = Digest::Sha512([3u8; 64]);
    let k = manifest_tag(7, &big, "release");
    assert_eq!(parse_manifest_tag_suffix(&k, &big), Some("release"));
}

#[test]
fn repo_id_roundtrips() {
    let k = repo_by_id(9_000_000);
    assert_eq!(k.len(), 5);
    assert_eq!(parse_repo_id(&k[1..]), Some(9_000_000));
}

#[test]
fn keys_are_spelled_as_documented() {
    assert_eq!(tag(1, "v1"), b"T\x00\x00\x00\x01v1".to_vec());
    assert_eq!(repo_by_id(0x01020304), b"i\x01\x02\x03\x04".to_vec());
    assert_eq!(repo_by_name("a/b"), b"na/b".to_vec());
    let mut m = b"M\x00\x00\x00\x07\x01".to_vec();
    m.extend_from_slice(&[5; 32]);
    assert_eq!(manifest(7, &d(5)), m);
    assert_eq!(keys::uploads(), b"U".to_vec());
    assert_eq!(keys::upload(&[3; 16]).len(), 17);
}

#[test]
fn parsers_refuse_foreign_keys() {
    assert_eq!(parse_tag_suffix(b"M\x00\x00\x00\x01v1"), None);
    assert_eq!(parse_tag_suffix(b"T\x00"), None);
    assert_eq!(parse_tag_suffix(b"T\x00\x00\x00\x01\xff"), None);
    assert_eq!(parse_repo_name(b"xalpine"), None);
    assert_eq!(parse_repo_id(&[1, 2, 3]), None);
    assert_eq!(parse_repo_id(&[0, 0, 1, 0]), Some(256));
}

#[test]
fn newer_history_sorts_first() {
    let at = |ms: u64| keys::tag_history(1, "v1", Timestamp::from_millis(ms), &d(1));
    assert!(at(2_000) < at(1_000));
    let m = |ms: u64| keys::manifest_tag_history(1, &d(1), Timestamp::from_millis(ms), "v1");
    assert!(m(2_000) < m(1_000));
}

#[test]
fn a_counter_key_reads_back() {
    let group = keys::counters_of_tag(3, "latest");
    let key = keys::counter(&group, 19_000, 7);
    assert_eq!(keys::counter_suffix(&key, &group), Some((19_000, 7)));
    assert_eq!(keys::counter_suffix(&key, &keys::counters_of_repo(3)), None);
    assert!(keys::counters_from_day(&group, 19_000) < key);
    assert!(keys::counters_from_day(&group, 19_001) >= key);
}

#[test]
fn moments_fall_into_their_buckets() {
    assert_eq!(keys::day_bucket(0), 0);
    assert_eq!(keys::day_bucket(86_399), 0);
    assert_eq!(keys::day_bucket(86_400), 1);
    assert_eq!(keys::day_bucket(u64::MAX), u16::MAX);
    assert_eq!(keys::hour_of_day(0), 0);
    assert_eq!(keys::hour_of_day(3_599), 0);
    assert_eq!(keys::hour_of_day(86_399), 23);
    assert_eq!(keys::hour_of_day(86_400), 0);
}

// --- time ----------------------------------------------------------------------

#[test]
fn seconds_and_milliseconds_convert_both_ways() {
    let t = Timestamp::from_secs(1_700_000_000);
    assert_eq!(t.millis(), 1_700_000_000_000);
    assert_eq!(t.secs(), 1_700_000_000);
    assert_eq!(
        Timestamp::from_millis(1_700_000_000_499).secs(),
        1_700_000_000
    );
}

#[test]
fn a_legacy_seconds_key_sorts_older_than_every_millisecond_key() {
    let legacy_seconds = 1_700_000_000_u64;
    let now_millis = Timestamp::from_secs(1_700_000_000).millis();
    assert!(now_millis > legacy_seconds);
    // Complemented, so "greater" means "sorts earlier", i.e. newer.
    assert!(!now_millis < !legacy_seconds);
}

#[test]
fn ordering_is_by_instant() {
    assert!(Timestamp::from_millis(1_001) > Timestamp::from_millis(1_000));
}

#[test]
fn blob_reference_scans_share_no_key() {
    let (x, y, m) = (Digest::Sha256([1; 32]), Digest::Sha512([1; 64]), Digest::Sha256([9; 32]));
    let edges = [
        keys::blob_ref(&x, 1, &m),
        keys::blob_ref(&x, 2, &m),
        keys::blob_ref(&y, 1, &m),
        keys::blob_ref(&y, 2, &m),
    ];
    let scans = [
        keys::blob_refs_in_repo(&x, 1),
        keys::blob_refs_in_repo(&x, 2),
        keys::blob_refs_in_repo(&y, 1),
        keys::blob_refs_in_repo(&y, 2),
    ];
    for (i, scan) in scans.iter().enumerate() {
        for (j, edge) in edges.iter().enumerate() {
            assert_eq!(edge.starts_with(scan), i == j);
        }
    }
    for (j, edge) in edges.iter().enumerate() {
        assert_eq!(edge.starts_with(&keys::blob_refs(&x)), j < 2);
        assert_eq!(edge.starts_with(&keys::blob_refs(&y)), j >= 2);
    }
}
