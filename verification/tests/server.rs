use summ::digest::Digest;
use summ::server::app::{route, surface, Endpoint, RouteError, Surface};
use summ::server::backend::{
    as_ops_reference, check_servable, found_manifest, mountable, ops_error, referrers_of, repositories_page,
    session_algorithm, staging_id, storage_error, stream_of, Drain, Event, Goal, Step,
    REFERRERS_LIMIT,
};
use summ::server::config::{reachable, Host, ServeLimits, ServerConfig};
use summ::server::counters::{
    bucket_of_secs, now_bucket, PullCounters, Recorded, Subject, MAX_BUCKETS,
};
use summ::server::error::{ApiError, ErrorCode};
use summ::server::http::{stamp, Method, ReplyBody};
use summ::server::ids::{new_session_id, new_staging_id};
use summ::server::memory::paginate;
use summ::server::pagination::{link_next, parse};
use summ::server::query::{all, first, form_decode, pairs, path_decode, query_escape};
use summ::server::range::{
    parse_chunk_range, parse_range, upload_range_header, ByteRange, ChunkRangeError, RangeOutcome,
};
use summ::server::reference::{
    parse_digest, parse_reference, valid_name, valid_tag, Reference, ReferenceError, MAX_NAME_LEN,
};
use summ::server::seam::{OpsError, Page, Tally, UploadBody};
use summ::server::ui::{asset, serve, Asset};
use summ::error::SummError;
use summ::registry::discovery::RepoList;
use summ::registry::error::RegistryError;
use summ::registry::referrers::{ReferrerEntry, ReferrerList};
use summ::storage::algorithm::DigestAlgorithm;
use summ::storage::read::Blob;
use summ::types::{ReferrerRecord, UploadSession};

// --- routes --------------------------------------------------------------------

fn manifest(name: &str, reference: &str) -> Result<Endpoint, RouteError> {
    Ok(Endpoint::Manifest {
        name: name.to_owned(),
        reference: reference.to_owned(),
    })
}

#[test]
fn base_matches_with_and_without_a_trailing_slash() {
    assert_eq!(route("/v2/"), Ok(Endpoint::Base));
    assert_eq!(route("/v2"), Ok(Endpoint::Base));
}

#[test]
fn catalog_is_not_confused_with_a_repository() {
    assert_eq!(route("/v2/_catalog"), Ok(Endpoint::Catalog));
    // `_catalog` fails the name grammar, so there is no ambiguity to resolve: it
    // could never have been a repository.
    assert_eq!(
        route("/v2/_catalog/tags/list"),
        Err(RouteError::InvalidName("_catalog".to_owned()))
    );
}

#[test]
fn repository_names_may_contain_slashes() {
    assert_eq!(route("/v2/foo/manifests/v1"), manifest("foo", "v1"));
    assert_eq!(route("/v2/foo/bar/manifests/v1"), manifest("foo/bar", "v1"));
    assert_eq!(
        route("/v2/foo/bar/baz/manifests/v1"),
        manifest("foo/bar/baz", "v1")
    );
    assert_eq!(
        route("/v2/a/b/c/d/e/f/g/h/i/manifests/v1"),
        manifest("a/b/c/d/e/f/g/h/i", "v1"),
        "there is no depth limit, unlike a per-depth route table"
    );
}

#[test]
fn a_repository_may_be_called_blobs_or_manifests() {
    assert_eq!(
        route("/v2/foo/blobs/manifests/v1"),
        manifest("foo/blobs", "v1")
    );
    assert_eq!(
        route("/v2/foo/manifests/tags/list"),
        Ok(Endpoint::TagList {
            name: "foo/manifests".to_owned()
        })
    );
}

#[test]
fn the_upload_suffix_wins_over_the_blob_suffix() {
    assert_eq!(
        route("/v2/foo/blobs/uploads/"),
        Ok(Endpoint::Uploads {
            name: "foo".to_owned()
        })
    );
    assert_eq!(
        route("/v2/foo/blobs/uploads"),
        Ok(Endpoint::Uploads {
            name: "foo".to_owned()
        })
    );
    assert_eq!(
        route("/v2/foo/bar/blobs/uploads/abc-123"),
        Ok(Endpoint::Upload {
            name: "foo/bar".to_owned(),
            id: "abc-123".to_owned()
        })
    );
}

#[test]
fn blobs_tags_and_referrers_route() {
    assert_eq!(
        route("/v2/foo/blobs/sha256:abcd"),
        Ok(Endpoint::Blob {
            name: "foo".to_owned(),
            digest: "sha256:abcd".to_owned()
        })
    );
    assert_eq!(
        route("/v2/foo/tags/list"),
        Ok(Endpoint::TagList {
            name: "foo".to_owned()
        })
    );
    assert_eq!(
        route("/v2/foo/referrers/sha256:abcd"),
        Ok(Endpoint::Referrers {
            name: "foo".to_owned(),
            digest: "sha256:abcd".to_owned()
        })
    );
}

#[test]
fn a_name_outside_the_grammar_is_distinguished_from_no_route() {
    // The shape matched, so this is `NAME_INVALID` rather than a bare 404.
    assert_eq!(
        route("/v2/FOO/manifests/v1"),
        Err(RouteError::InvalidName("FOO".to_owned()))
    );
    assert_eq!(
        route("/v2/foo-/manifests/v1"),
        Err(RouteError::InvalidName("foo-".to_owned()))
    );
    // An empty segment is not a name at all.
    assert_eq!(route("/v2//manifests/v1"), Err(RouteError::NoMatch));
}

#[test]
fn unknown_shapes_do_not_route() {
    assert_eq!(route("/v2/foo"), Err(RouteError::NoMatch));
    assert_eq!(route("/v2/foo/bar"), Err(RouteError::NoMatch));
    assert_eq!(route("/v2/foo/whatever/v1"), Err(RouteError::NoMatch));
    assert_eq!(route("/v1/foo/manifests/v1"), Err(RouteError::NoMatch));
    assert_eq!(route("/"), Err(RouteError::NoMatch));
}

#[test]
fn segments_are_decoded_after_splitting() {
    // `%2F` inside a reference stays inside the reference. It will then be rejected
    // by the tag grammar; what matters is that it never became a path separator.
    assert_eq!(route("/v2/foo/manifests/a%2Fb"), manifest("foo", "a/b"));
}

#[test]
fn a_path_that_only_begins_like_the_base_does_not_route() {
    assert_eq!(route("/v2foo/manifests/v1"), Err(RouteError::NoMatch));
    assert_eq!(route(""), Err(RouteError::NoMatch));
    assert_eq!(route("/v2//"), Err(RouteError::NoMatch));
    assert_eq!(
        route("/v2/foo/manifests/v1/"),
        manifest("foo", "v1"),
        "one trailing slash is dropped"
    );
}

#[test]
fn surfaces_are_told_apart() {
    assert_eq!(surface("/v2"), Surface::Registry);
    assert_eq!(surface("/v2/foo"), Surface::Registry);
    assert_eq!(surface("/v2x"), Surface::Pages);
    assert_eq!(surface("/api/v1/nothing"), Surface::Discovery);
    assert_eq!(surface("/apix"), Surface::Pages);
    assert_eq!(surface("/"), Surface::Pages);
}

// --- counters ------------------------------------------------------------------

fn digest(n: u8) -> Digest {
    Digest::Sha256([n; 32])
}

fn find(drained: &[Recorded], subject: &Subject) -> Recorded {
    drained
        .iter()
        .find(|r| &r.subject == subject)
        .unwrap_or_else(|| panic!("no {subject:?} in {drained:?}"))
        .clone()
}

#[test]
fn a_manifest_pull_by_tag_counts_three_scopes() {
    let mut counters = PullCounters::new();
    counters.record_manifest_pull("demo", Some("latest"), &digest(1));

    let drained = counters.drain();
    assert_eq!(drained.len(), 3);
    for subject in [
        Subject::Manifest(digest(1)),
        Subject::Tag("latest".into()),
        Subject::Repo,
    ] {
        let row = find(&drained, &subject);
        assert_eq!(row.manifest_pulls, 1);
        assert_eq!(row.repo, "demo");
    }
}

#[test]
fn a_manifest_pull_by_digest_counts_two() {
    let mut counters = PullCounters::new();
    counters.record_manifest_pull("demo", None, &digest(1));

    let drained = counters.drain();
    assert_eq!(drained.len(), 2);
    assert!(!drained.iter().any(|r| matches!(r.subject, Subject::Tag(_))));
}

#[test]
fn repeated_pulls_of_one_subject_stay_one_entry() {
    let mut counters = PullCounters::new();
    for _ in 0..1_000 {
        counters.record_manifest_pull("demo", Some("latest"), &digest(1));
    }

    let drained = counters.drain();
    assert_eq!(drained.len(), 3);
    assert_eq!(find(&drained, &Subject::Repo).manifest_pulls, 1_000);
}

#[test]
fn draining_leaves_the_map_empty() {
    let mut counters = PullCounters::new();
    counters.record_manifest_pull("demo", None, &digest(1));
    assert_eq!(counters.drain().len(), 2);
    assert!(counters.drain().is_empty());
}

#[test]
fn saturating_drops_new_subjects_and_never_a_hot_one() {
    let mut counters = PullCounters::new();
    counters.record_manifest_pull("demo", None, &digest(0));
    // Fill the rest of the map.
    for n in 0..MAX_BUCKETS as u64 {
        counters.record_blob_bytes(&format!("filler-{n}"), 1, 0, 0);
    }

    counters.record_manifest_pull("demo", None, &digest(0));
    counters.record_manifest_pull("demo", None, &digest(9));

    let drained = counters.drain();
    let hot = drained
        .iter()
        .find(|r| r.subject == Subject::Manifest(digest(0)))
        .expect("the existing subject still counts");
    assert_eq!(hot.manifest_pulls, 2);
    assert!(!drained
        .iter()
        .any(|r| r.subject == Subject::Manifest(digest(9))));
    assert!(counters.take_dropped() > 0);
    assert_eq!(counters.take_dropped(), 0, "reading resets the tally");
}

#[test]
fn a_counter_loses_nothing_of_a_run() {
    let mut counters = PullCounters::new();
    let (tagged, untagged) = (40u64, 25u64);
    for n in 0..tagged {
        counters.record_manifest_pull("demo", Some("latest"), &digest(n as u8 % 7));
    }
    for n in 0..untagged {
        counters.record_manifest_pull("other", None, &digest(n as u8 % 3));
    }
    let drained = counters.drain();
    let held: u64 = drained.iter().map(|r| r.manifest_pulls).sum();
    assert_eq!(held + counters.take_dropped(), 3 * tagged + 2 * untagged);
    for (i, a) in drained.iter().enumerate() {
        assert_eq!((a.blob_pulls, a.bytes_out), (0, 0));
        for b in &drained[..i] {
            let same = a.repo == b.repo && a.subject == b.subject && a.day == b.day;
            assert!(!(same && a.hour == b.hour), "a bucket came out twice");
        }
    }
    assert!(counters.drain().is_empty());
    assert_eq!(counters.take_dropped(), 0);
}

#[test]
fn what_the_cap_turns_away_is_still_accounted_for() {
    let mut counters = PullCounters::new();
    for n in 0..MAX_BUCKETS as u64 {
        counters.record_manifest_pull_at(&format!("r{n}"), None, &digest(0), 1, 0);
    }
    let drained = counters.drain();
    assert_eq!(drained.len(), MAX_BUCKETS);
    let held: u64 = drained.iter().map(|r| r.manifest_pulls).sum();
    assert_eq!(held + counters.take_dropped(), 2 * MAX_BUCKETS as u64);
}

#[test]
fn a_disabled_counter_records_nothing() {
    let mut counters = PullCounters::disabled();
    counters.record_manifest_pull("demo", Some("latest"), &digest(1));
    counters.record_blob_bytes("demo", 1, 0, 4096);
    assert!(counters.drain().is_empty());
    assert!(!counters.is_enabled());
}

#[test]
fn a_pull_counts_in_the_hour_it_was_made() {
    assert_eq!(bucket_of_secs(1_700_000_000), (19675, 22));
    let mut counters = PullCounters::new();
    counters.record_manifest_pull_at("demo", Some("latest"), &digest(1), 19675, 22);
    for row in counters.drain() {
        assert_eq!((row.day, row.hour), (19675, 22));
    }
    let (day, hour) = now_bucket();
    assert!(day > 19675 && hour < 24);
}

#[test]
fn session_ids_are_fresh_and_plain() {
    let (a, b) = (new_session_id(), new_session_id());
    assert_ne!(a, b);
    assert_eq!(a.len(), 36);
    assert!(a.bytes().all(|c| c == b'-' || c.is_ascii_digit() || (b'a'..=b'f').contains(&c)));
    let staged = new_staging_id();
    assert!(staged.starts_with("single-") && staged.len() == 43);
    assert_eq!(staging_id(&staged).unwrap().as_str(), staged);
    assert!(matches!(staging_id("../x"), Err(OpsError::UploadUnknown)));
}

#[test]
fn what_the_stores_are_asked_is_checked_first() {
    assert!(matches!(session_algorithm("sha512"), Ok(DigestAlgorithm::Sha512)));
    assert!(matches!(
        session_algorithm("md5"),
        Err(OpsError::ManifestInvalid(m)) if m == "invalid digest: unsupported digest algorithm \"md5\""
    ));
    assert!(check_servable(Ok(true)).is_ok());
    assert!(matches!(check_servable(Ok(false)), Err(OpsError::BlobUnknown)));
    assert!(matches!(
        check_servable(Err(RegistryError::Meta(SummError::NotFound))),
        Err(OpsError::BlobUnknown)
    ));
    assert_eq!(mountable(None, Some(4)), Some(4));
    assert_eq!(mountable(Some(true), Some(4)), Some(4));
    assert_eq!(mountable(Some(false), Some(4)), None);
    assert_eq!(mountable(Some(true), None), None);
    let tag = as_ops_reference(&Reference::Tag("v1".to_string()));
    assert_eq!(tag.as_tag(), Some("v1"));
    let by_digest = as_ops_reference(&Reference::Digest(digest(3)));
    assert_eq!(by_digest.as_digest(), Some(&digest(3)));
}

#[test]
fn every_interface_is_reached_through_the_loopback() {
    assert_eq!(reachable(Host::V4([0; 4])), Host::V4([127, 0, 0, 1]));
    assert_eq!(reachable(Host::V4([10, 0, 0, 1])), Host::V4([10, 0, 0, 1]));
    assert_eq!(reachable(Host::V6([0; 8])), Host::V6([0, 0, 0, 0, 0, 0, 0, 1]));
    assert_eq!(reachable(Host::V6([1; 8])), Host::V6([1; 8]));
}

#[test]
fn blob_bytes_add_up_and_never_wrap() {
    let mut counters = PullCounters::new();
    counters.record_blob_bytes("demo", 1, 0, 4096);
    counters.record_blob_bytes("demo", 1, 0, 10);
    counters.record_blob_bytes("demo", 1, 1, u64::MAX);
    counters.record_blob_bytes("demo", 1, 1, 5);
    let drained = counters.drain();
    assert_eq!(drained.len(), 2);
    let first = drained.iter().find(|r| r.hour == 0).unwrap();
    assert_eq!((first.blob_pulls, first.bytes_out), (2, 4106));
    let second = drained.iter().find(|r| r.hour == 1).unwrap();
    assert_eq!((second.blob_pulls, second.bytes_out), (2, u64::MAX));
    assert!(counters.is_enabled());
}

// --- pages ---------------------------------------------------------------------

#[test]
fn pagination_peeks_rather_than_guessing_from_a_full_page() {
    let items = ["a", "b", "c"].map(str::to_owned);
    let page = paginate(&items, None, 3);
    assert_eq!(page.items.len(), 3);
    assert!(
        !page.more,
        "a page that exactly consumes the range has nothing after it"
    );

    let page = paginate(&items, None, 2);
    assert!(page.more);

    let page = paginate(&items, Some(&"a".to_owned()), 5);
    assert_eq!(page.items, vec!["b".to_owned(), "c".to_owned()]);
    assert!(!page.more);
}

#[test]
fn a_page_may_be_as_large_as_there_are_numbers() {
    let items = ["a", "b"].map(str::to_owned);
    let page = paginate(&items, None, usize::MAX);
    assert_eq!(page.items.len(), 2);
    assert!(!page.more);
    let page = paginate(&items, None, 0);
    assert!(page.items.is_empty() && page.more);
}

fn config() -> ServerConfig {
    ServerConfig {
        default_page_size: 100,
        max_page_size: 500,
        ..ServerConfig::default()
    }
}

#[test]
fn absent_n_uses_the_default() {
    let p = parse(&pairs(""), &config()).expect("no params is valid");
    assert_eq!(p.limit, 100);
    assert!(!p.explicit_zero);
    assert_eq!(p.last, None);
}

#[test]
fn n_is_clamped_not_rejected() {
    let p = parse(&pairs("n=100000"), &config()).expect("oversized n is clamped");
    assert_eq!(p.limit, 500);
}

#[test]
fn zero_is_recorded_explicitly() {
    let p = parse(&pairs("n=0"), &config()).expect("n=0 is valid");
    assert_eq!(p.limit, 0);
    assert!(p.explicit_zero);
}

#[test]
fn malformed_n_is_a_pagination_error() {
    for q in ["n=-1", "n=abc", "n=", "n=1.5", "n= 1"] {
        let err = parse(&pairs(q), &config()).expect_err("should reject");
        assert_eq!(err.code(), ErrorCode::PaginationNumberInvalid);
        assert_eq!(err.status(), 400);
    }
}

#[test]
fn last_is_carried_through_and_empty_means_absent() {
    let p = parse(&pairs("last=v1"), &config()).expect("valid");
    assert_eq!(p.last.as_deref(), Some("v1"));
    let p = parse(&pairs("last="), &config()).expect("valid");
    assert_eq!(p.last, None);
}

#[test]
fn link_matches_the_reference_format() {
    let link = link_next("/v2/demo/app/tags/list", "v1", 1).expect("valid header");
    assert_eq!(link, "</v2/demo/app/tags/list?last=v1&n=1>; rel=\"next\"");

    let link = link_next("/v2/_catalog", "conformance/repo1", 1).expect("valid header");
    assert_eq!(
        link,
        "</v2/_catalog?last=conformance%2Frepo1&n=1>; rel=\"next\""
    );
}

#[test]
fn a_link_that_is_no_header_value_is_left_out() {
    assert_eq!(link_next("/v2/a\nb", "v1", 1), None);
    assert_eq!(link_next("/v2/a\u{7f}", "v1", 1), None);
    assert!(link_next("/v2/\u{e9}", "v1", 1).is_some());
    assert!(link_next("/v2/a\tb", "v1", 1).is_some());
}

// --- queries -------------------------------------------------------------------

#[test]
fn pairs_preserve_order_and_repeats() {
    let p = pairs("tag=a&tag=b&n=3");
    assert_eq!(all(&p, "tag"), vec!["a", "b"]);
    assert_eq!(first(&p, "n"), Some("3"));
    assert_eq!(first(&p, "missing"), None);
}

#[test]
fn a_bare_key_has_an_empty_value() {
    let p = pairs("digest&n=1");
    assert_eq!(first(&p, "digest"), Some(""));
}

#[test]
fn decoding_distinguishes_path_from_query() {
    assert_eq!(form_decode("a+b"), "a b");
    assert_eq!(path_decode("a+b"), "a+b");
    assert_eq!(path_decode("conformance%2Frepo1"), "conformance/repo1");
}

#[test]
fn escaping_matches_go_query_escape() {
    assert_eq!(query_escape("conformance/repo1"), "conformance%2Frepo1");
    assert_eq!(query_escape("v1.0-rc_1~x"), "v1.0-rc_1~x");
    assert_eq!(query_escape("a b"), "a+b");
}

#[test]
fn escaped_values_decode_to_themselves() {
    for s in ["", "a b", "50%", "\u{e9}\u{4e2d}\u{1f600}", "a&b=c+d", "\n\t\0"] {
        assert_eq!(form_decode(&query_escape(s)), s);
    }
}

#[test]
fn broken_escapes_stay_and_broken_text_is_replaced() {
    assert_eq!(path_decode("%zz%4"), "%zz%4");
    assert_eq!(path_decode("%"), "%");
    assert_eq!(path_decode("a%ffb"), "a\u{fffd}b");
    assert_eq!(path_decode("%C3%A9"), "\u{e9}");
}

// --- ranges --------------------------------------------------------------------

const LEN: u64 = 2048;

fn partial(start: u64, end: u64) -> RangeOutcome {
    RangeOutcome::Partial(ByteRange { start, end })
}

#[test]
fn the_six_conformance_range_cases() {
    assert_eq!(parse_range("bytes=500-1499", LEN), partial(500, 1499));
    assert_eq!(parse_range("bytes=500-", LEN), partial(500, 2047));
    assert_eq!(parse_range("bytes=-500", LEN), partial(1548, 2047));
    assert_eq!(parse_range("bytes=2000-5000", LEN), partial(2000, 2047));
    assert_eq!(parse_range("bytes=500-0", LEN), RangeOutcome::Unsatisfiable);
    assert_eq!(
        parse_range("bytes=5000-10000", LEN),
        RangeOutcome::Unsatisfiable
    );
}

#[test]
fn range_lengths_are_inclusive() {
    assert_eq!(
        ByteRange {
            start: 500,
            end: 1499
        }
        .size(),
        1000
    );
    assert_eq!(
        ByteRange {
            start: 500,
            end: 2047
        }
        .size(),
        1548
    );
    assert_eq!(
        ByteRange {
            start: 1548,
            end: 2047
        }
        .size(),
        500
    );
    assert_eq!(
        ByteRange {
            start: 2000,
            end: 2047
        }
        .size(),
        48
    );
}

#[test]
fn unparseable_or_multi_ranges_fall_back_to_the_whole_blob() {
    assert_eq!(parse_range("items=0-1", LEN), RangeOutcome::Whole);
    assert_eq!(parse_range("bytes=abc-def", LEN), RangeOutcome::Whole);
    assert_eq!(parse_range("bytes=0-99,200-299", LEN), RangeOutcome::Whole);
    assert_eq!(parse_range("bytes=-", LEN), RangeOutcome::Whole);
}

#[test]
fn an_empty_blob_satisfies_no_range() {
    assert_eq!(parse_range("bytes=0-0", 0), RangeOutcome::Unsatisfiable);
}

#[test]
fn chunk_range_accepts_only_the_bare_grammar() {
    assert_eq!(
        parse_chunk_range("0-1023"),
        Ok(ByteRange {
            start: 0,
            end: 1023
        })
    );
    assert_eq!(
        parse_chunk_range("1024-2047"),
        Ok(ByteRange {
            start: 1024,
            end: 2047
        })
    );
}

#[test]
fn chunk_range_rejects_the_download_grammar() {
    // These are the two forms that get mixed up, and the upload parser must not
    // accept the download one.
    assert!(matches!(
        parse_chunk_range("bytes 0-1023/2048"),
        Err(ChunkRangeError::Malformed(_))
    ));
    assert!(matches!(
        parse_chunk_range("bytes=0-1023"),
        Err(ChunkRangeError::Malformed(_))
    ));
    assert!(matches!(
        parse_chunk_range("0-1023/2048"),
        Err(ChunkRangeError::Malformed(_))
    ));
}

#[test]
fn chunk_range_rejects_junk_and_inversion() {
    assert!(matches!(
        parse_chunk_range("0"),
        Err(ChunkRangeError::Malformed(_))
    ));
    assert!(matches!(
        parse_chunk_range("-5"),
        Err(ChunkRangeError::Malformed(_))
    ));
    assert!(matches!(
        parse_chunk_range("5-"),
        Err(ChunkRangeError::Malformed(_))
    ));
    assert_eq!(parse_chunk_range("10-5"), Err(ChunkRangeError::Inverted));
}

#[test]
fn chunk_range_is_anchored_at_both_ends() {
    for raw in ["", " ", " 0-1023", "0-1023 ", "\t0-1023", "0 -1023", "0- 1023", "+0-1023", "0-1-2"] {
        assert_eq!(
            parse_chunk_range(raw),
            Err(ChunkRangeError::Malformed(raw.to_owned())),
            "{raw:?}"
        );
    }
    assert_eq!(
        parse_chunk_range("007-007"),
        Ok(ByteRange { start: 7, end: 7 })
    );
}

#[test]
fn upload_range_reports_the_last_written_byte() {
    assert_eq!(upload_range_header(1024), "0-1023");
    assert_eq!(upload_range_header(1), "0-0");
    assert_eq!(upload_range_header(0), "0-0");
}

// --- references ----------------------------------------------------------------

#[test]
fn accepts_the_spec_name_examples() {
    for name in [
        "a",
        "foo",
        "foo.bar",
        "foo_bar",
        "foo__bar",
        "foo---bar",
        "a/b/c",
        "library/ubuntu",
        "homebrew/core/hello",
        "a1/b2.c3/d4__e5/f6---g7",
        "0",
    ] {
        assert!(valid_name(name), "{name} should be valid");
    }
}

#[test]
fn rejects_names_outside_the_grammar() {
    for name in [
        "",
        "Foo",       // uppercase
        "-foo",      // leading separator
        "foo-",      // trailing separator
        "foo..bar",  // `..` is not a separator
        "foo___bar", // `___` is not a separator
        "foo/",      // empty component
        "/foo",
        "foo//bar",
        "foo bar",
        "foo:bar",
        "foo@bar",
        "föö",
    ] {
        assert!(!valid_name(name), "{name} should be rejected");
    }
}

#[test]
fn name_length_is_capped_at_255() {
    let ok = "a".repeat(MAX_NAME_LEN);
    assert!(valid_name(&ok));
    let too_long = "a".repeat(MAX_NAME_LEN + 1);
    assert!(!valid_name(&too_long));
}

#[test]
fn accepts_and_rejects_tags_per_grammar() {
    for tag in [
        "v1",
        "V1",
        "_underscore",
        "1.0.0-alpha_1",
        "a".repeat(128).as_str(),
    ] {
        assert!(valid_tag(tag), "{tag} should be valid");
    }
    for tag in [
        "",
        ".leading-dot",
        "-leading-dash",
        "has/slash",
        "has:colon",
        "a".repeat(129).as_str(),
    ] {
        assert!(!valid_tag(tag), "{tag} should be rejected");
    }
}

#[test]
fn digest_parsing_is_lowercase_only() {
    let lower = format!("sha256:{}", "ab".repeat(32));
    assert!(parse_digest(&lower).is_ok());

    let upper = format!("sha256:{}", "AB".repeat(32));
    assert!(
        parse_digest(&upper).is_err(),
        "uppercase hex must be rejected"
    );

    assert!(parse_digest("sha256:baddigeststring").is_err());
    assert!(parse_digest("sha256").is_err());
    assert!(parse_digest("md5:d41d8cd98f00b204e9800998ecf8427e").is_err());
    assert!(parse_digest(&format!("sha512:{}", "cd".repeat(64))).is_ok());
}

#[test]
fn a_colon_bearing_reference_is_a_digest_even_when_malformed() {
    assert!(matches!(
        parse_reference("sha256:baddigeststring"),
        Err(ReferenceError::Digest(_))
    ));
    assert!(matches!(
        parse_reference("latest"),
        Ok(Reference::Tag(t)) if t == "latest"
    ));
    assert!(matches!(
        parse_reference("has/slash"),
        Err(ReferenceError::Tag(_))
    ));
}

#[test]
fn refused_digests_say_why() {
    let words = |s: &str| parse_digest(s).unwrap_err().0;
    assert_eq!(words("sha256"), "missing algorithm separator: sha256");
    assert_eq!(words(":ab"), "malformed digest: :ab");
    assert_eq!(words("sha256:"), "malformed digest: sha256:");
    assert_eq!(words("sha256:AB"), "digest encoding must be lowercase: sha256:AB");
    assert_eq!(
        words("sha256:ab"),
        "invalid digest: expected 64 hex chars, got 2: sha256:ab"
    );
}

// --- errors --------------------------------------------------------------------

#[test]
fn errors_carry_what_they_are_given() {
    let e = ApiError::new(ErrorCode::SizeInvalid);
    assert_eq!((e.code(), e.status()), (ErrorCode::SizeInvalid, 400));
    assert_eq!(e.message, "provided length did not match content length");
    let e = e
        .with_status(413)
        .with_message("too big")
        .with_detail("why")
        .with_header("allow", "GET".to_string());
    assert_eq!(e.status(), 413);
    assert_eq!(e.message, "too big");
    assert_eq!(e.detail.as_deref(), Some("why"));
    assert_eq!(e.headers, [("allow".to_string(), "GET".to_string())]);
    let bare = ApiError::status_only(404);
    assert!(bare.body.is_none() && bare.status() == 404);
    let inner = ApiError::internal("disk".to_string());
    assert!(inner.body.is_none() && inner.status() == 500 && inner.message == "disk");
}

#[test]
fn the_version_is_named_once() {
    let stamped = stamp(Vec::new());
    assert_eq!(
        stamped,
        [("docker-distribution-api-version".to_string(), "registry/2.0".to_string())]
    );
    assert_eq!(stamp(stamped).len(), 1);
}

#[test]
fn limits_come_from_the_arguments() {
    let limits = ServeLimits {
        allow_missing_references: true,
        max_manifest_bytes: 77,
        default_page_size: 5,
        max_page_size: 9,
        referrers: true,
    };
    let options = limits.registry_options();
    assert!(!options.validate_references && options.max_manifest_bytes == 77);
    let config = limits.server_config();
    assert_eq!(config.max_manifest_bytes, 77);
    assert_eq!((config.default_page_size, config.max_page_size), (5, 9));
    assert!(config.referrers_enabled);
    assert_eq!(config.max_tag_params, 32);
    assert_eq!(ServerConfig::default().max_manifest_bytes, 8 * 1024 * 1024);
}

#[test]
fn small_values_are_what_they_say() {
    assert_eq!(Tally::exact(3), Tally { count: 3, complete: true });
    let none: Page<String> = Page::empty();
    assert!(none.items.is_empty() && !none.more);
}

// --- bodies and pushes ---------------------------------------------------------

fn body(len: usize, declared: Option<u64>, limit: Option<u64>) -> UploadBody<Vec<u8>> {
    UploadBody { body: vec![1; len], declared, limit }
}

#[test]
fn a_collected_body_is_held_to_both_limits() {
    assert_eq!(body(4, None, None).collect().unwrap(), vec![1; 4]);
    assert_eq!(body(4, Some(4), Some(4)).collect().unwrap().len(), 4);
    assert!(matches!(
        body(0, Some(5), Some(4)).collect(),
        Err(OpsError::BodyTooLarge { limit: 4 })
    ));
    assert!(matches!(
        body(5, None, Some(4)).collect(),
        Err(OpsError::BodyTooLarge { limit: 4 })
    ));
    assert!(matches!(
        body(3, Some(4), Some(9)).collect(),
        Err(OpsError::SizeMismatch { declared: 4, actual: 3 })
    ));
}

#[test]
fn a_drained_body_is_held_to_both_limits_frame_by_frame() {
    let mut d = Drain::new(Some(6), Some(8));
    assert!(d.take_in(4).is_ok());
    assert!(matches!(d.take_in(5), Err(OpsError::BodyTooLarge { limit: 8 })));
    assert!(matches!(
        d.finish(),
        Err(OpsError::SizeMismatch { declared: 6, actual: 4 })
    ));
    assert!(d.take_in(2).is_ok());
    assert!(matches!(d.finish(), Ok(6)));
    let mut d = Drain::new(None, None);
    assert!(d.take_in(u64::MAX).is_ok());
    assert!(d.take_in(1).is_err());
}

fn session(offset: u64) -> UploadSession {
    UploadSession {
        repo: 1,
        offset,
        started_at: 5,
        updated_at: 5,
        algorithm: "sha256".to_string(),
        hasher_state: None,
    }
}

#[test]
fn a_chunk_is_looked_up_drained_and_saved() {
    let goal = Goal::Chunk { expected_offset: 3 };
    let step = goal.first_step();
    assert!(matches!(step, Step::Look));
    let step = goal.next_step(step, Event::Looked(Ok(Some(session(3)))));
    assert!(matches!(step, Step::Open(Some(_))));
    let step = goal.next_step(step, Event::Opened(Ok(())));
    let step = goal.next_step(step, Event::Drained(Ok((10, vec![7], 99))));
    match &step {
        Step::Save(s) => {
            assert_eq!((s.offset, s.updated_at, s.started_at), (10, 99, 5));
            assert_eq!(s.hasher_state, Some(vec![7]));
        }
        other => panic!("{other:?}"),
    }
    assert!(matches!(goal.next_step(step, Event::Written(Ok(()))), Step::Done(Ok(10))));
}

#[test]
fn a_push_is_refused_before_a_file_is_touched() {
    let goal = Goal::Chunk { expected_offset: 3 };
    assert!(matches!(
        goal.next_step(Step::Look, Event::Looked(Ok(None))),
        Step::Done(Err(OpsError::UploadUnknown))
    ));
    assert!(matches!(
        goal.next_step(Step::Look, Event::Looked(Ok(Some(session(4))))),
        Step::Done(Err(OpsError::OffsetMismatch { current: 4 }))
    ));
    let goal = Goal::Finish { expected_offset: 4, digest: Digest::Sha512([1; 64]) };
    assert!(matches!(
        goal.next_step(Step::Look, Event::Looked(Ok(Some(session(4))))),
        Step::Done(Err(OpsError::DigestMismatch))
    ));
}

#[test]
fn metadata_follows_the_commit() {
    let goal = Goal::Finish { expected_offset: 4, digest: digest(1) };
    let step = goal.next_step(Step::Look, Event::Looked(Ok(Some(session(4)))));
    let step = goal.next_step(step, Event::Opened(Ok(())));
    let step = goal.next_step(step, Event::Drained(Ok((4, vec![], 9))));
    assert!(matches!(step, Step::Commit));
    let step = goal.next_step(step, Event::Committed(Ok(4)));
    assert!(matches!(step, Step::Store(4)));
    assert!(matches!(goal.next_step(step, Event::Written(Ok(()))), Step::Done(Ok(4))));
    assert!(matches!(
        goal.next_step(Step::Commit, Event::Committed(Err(SummError::InvalidDigest("x".into())))),
        Step::Done(Err(OpsError::DigestMismatch))
    ));
}

#[test]
fn a_failed_single_push_clears_up_after_itself() {
    let goal = Goal::Whole;
    assert!(matches!(goal.first_step(), Step::Open(None)));
    let step = goal.next_step(
        Step::Commit,
        Event::Committed(Err(SummError::InvalidDigest("x".into()))),
    );
    assert!(matches!(step, Step::Clear(OpsError::DigestMismatch)));
    assert!(matches!(
        goal.next_step(step, Event::Cleared),
        Step::Done(Err(OpsError::DigestMismatch))
    ));
    let stray = goal.next_step(Step::Commit, Event::Cleared);
    assert!(matches!(stray, Step::Commit));
}

#[test]
fn a_session_gets_its_file_first_and_loses_it_last() {
    let create = Goal::Create;
    let step = create.first_step();
    assert!(matches!(step, Step::Open(None)));
    let step = create.next_step(step, Event::Opened(Ok(())));
    assert!(matches!(step, Step::Record));
    assert!(matches!(create.next_step(step, Event::Written(Ok(()))), Step::Done(Ok(0))));
    let cancel = Goal::Cancel;
    let step = cancel.next_step(cancel.first_step(), Event::Looked(Ok(Some(session(9)))));
    assert!(matches!(step, Step::Retire));
    let step = cancel.next_step(step, Event::Written(Ok(())));
    assert!(matches!(step, Step::Sweep));
    assert!(matches!(cancel.next_step(step, Event::Swept(Ok(()))), Step::Done(Ok(0))));
    assert!(matches!(found_manifest(Ok(Some(1))), Ok(1)));
    assert!(matches!(found_manifest::<u8>(Ok(None)), Err(OpsError::ManifestUnknown)));
}

#[test]
fn failures_are_told_in_the_vocabulary_of_the_protocol() {
    let repo = || "a".to_string();
    assert!(matches!(
        ops_error(RegistryError::NameUnknown { repo: repo() }),
        OpsError::RepoUnknown
    ));
    assert!(matches!(
        ops_error(RegistryError::ManifestUnknown { repo: repo(), reference: repo() }),
        OpsError::ManifestUnknown
    ));
    assert!(matches!(
        ops_error(RegistryError::BlobUnknown { repo: repo(), digest: digest(1) }),
        OpsError::BlobUnknown
    ));
    assert!(matches!(
        ops_error(RegistryError::DigestInvalid { reason: repo() }),
        OpsError::DigestMismatch
    ));
    assert!(matches!(
        ops_error(RegistryError::TagInvalid { tag: "-x".into(), reason: "bad".into() }),
        OpsError::ManifestInvalid(m) if m == "tag \"-x\": bad"
    ));
    assert!(matches!(
        ops_error(RegistryError::ManifestInvalid { reason: "r".into() }),
        OpsError::ManifestInvalid(m) if m == "r"
    ));
    assert!(matches!(
        ops_error(RegistryError::ManifestBlobUnknown { repo: repo(), digest: digest(2) }),
        OpsError::ManifestBlobUnknown { digest: d } if d == digest(2)
    ));
    assert!(matches!(
        ops_error(RegistryError::Meta(SummError::NotFound)),
        OpsError::Internal(m) if m == "not found"
    ));
    assert!(matches!(storage_error(SummError::NotFound), OpsError::BlobUnknown));
    assert!(matches!(
        storage_error(SummError::Storage("s".into())),
        OpsError::Internal(m) if m == "s"
    ));
}

#[test]
fn a_window_is_resolved_against_the_file() {
    let blob = Blob::new(10, 4);
    assert!(stream_of(&blob, None, &digest(1)).is_ok());
    assert!(stream_of(&blob, Some(ByteRange { start: 2, end: 5 }), &digest(1)).is_ok());
    match stream_of(&blob, Some(ByteRange { start: 10, end: 12 }), &digest(1)) {
        Err(OpsError::Internal(m)) => assert_eq!(
            m,
            format!("range 10-12 outside blob {} of 10 bytes", digest(1).to_text())
        ),
        other => panic!("{other:?}"),
    }
}

#[test]
fn listings_are_handed_on_unchanged() {
    let page = repositories_page(RepoList { repos: vec!["a".into()], next: Some("a".into()) });
    assert!(page.more && page.items == ["a"]);
    let record = |t: &str| ReferrerRecord {
        media_type: t.to_string(),
        artifact_type: None,
        size: 3,
        annotations: vec![("k".to_string(), "v".to_string())],
    };
    let found = referrers_of(ReferrerList {
        entries: vec![
            ReferrerEntry { digest: digest(1), record: record("x") },
            ReferrerEntry { digest: digest(2), record: record("y") },
        ],
        next: Some(digest(2)),
        filter_applied: true,
    });
    assert_eq!(found.manifests.len(), 2);
    assert_eq!(found.manifests[0].digest, digest(1));
    assert_eq!(found.manifests[1].media_type, "y");
    assert_eq!(found.next, Some(digest(2)));
    assert!(found.filter_applied);
    assert_eq!(REFERRERS_LIMIT, 1000);
}

// --- pages of the web UI -------------------------------------------------------

#[test]
fn every_other_path_is_the_shell() {
    assert_eq!(asset("/app.css"), Asset::Style);
    assert_eq!(asset("/app.js"), Asset::Script);
    assert_eq!(asset("/logo.svg"), Asset::Logo);
    assert_eq!(asset("/"), Asset::Shell);
    assert_eq!(asset("/repositories/demo"), Asset::Shell);
    let get = serve::<()>(Method::Get, asset("/app.css"), b"body{}".to_vec());
    assert_eq!(get.status, 200);
    assert_eq!(get.headers[0].1, "text/css; charset=utf-8");
    assert_eq!(get.headers[1].1, "6");
    assert!(matches!(get.body, ReplyBody::Bytes(b) if b == b"body{}"));
    let head = serve::<()>(Method::Head, asset("/"), b"x".to_vec());
    assert!(matches!(head.body, ReplyBody::Empty));
    assert_eq!(head.headers[1].1, "1");
    let post = serve::<()>(Method::Post, asset("/"), Vec::new());
    assert_eq!(post.status, 405);
    assert_eq!(post.headers, [("allow".to_string(), "GET, HEAD".to_string())]);
}
