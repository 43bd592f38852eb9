use summ::digest::Digest;
use summ::storage::algorithm::DigestAlgorithm;
use summ::storage::hasher::{digest_of, Hasher};
use summ::storage::paths::{blob_path, join, parent, upload_path, Created, DirMove, DirPlan};
use summ::storage::read::ByteRange;
use summ::storage::store::{same_digest, BlobStore};
use summ::storage::upload::{AppendMove, ResumeMove, Upload, UploadId};

// --- hashers -------------------------------------------------------------------

#[test]
fn serialised_state_is_small_enough_to_live_in_an_upload_session() {
    // The point of storing this with the session rather than on the storage
    // driver is that it is tiny.
    assert_eq!(
        Hasher::new(DigestAlgorithm::Sha256).serialize_state().len(),
        104
    );
    assert_eq!(
        Hasher::new(DigestAlgorithm::Sha512).serialize_state().len(),
        208
    );
}

#[test]
fn a_restored_hasher_matches_an_uninterrupted_one() {
    for algorithm in [DigestAlgorithm::Sha256, DigestAlgorithm::Sha512] {
        let mut straight = Hasher::new(algorithm);
        straight.update(b"the quick brown fox ");
        straight.update(b"jumps over the lazy dog");

        let mut interrupted = Hasher::new(algorithm);
        interrupted.update(b"the quick brown fox ");
        let state = interrupted.serialize_state();
        drop(interrupted);

        let mut resumed = Hasher::restore(algorithm, &state).expect("restore");
        resumed.update(b"jumps over the lazy dog");

        assert_eq!(straight.finalize(), resumed.finalize());
    }
}

#[test]
fn a_truncated_state_is_rejected_rather_than_silently_restarted() {
    let state = Hasher::new(DigestAlgorithm::Sha256).serialize_state();
    assert!(Hasher::restore(DigestAlgorithm::Sha256, &state[..50]).is_err());
    // Right length, wrong algorithm: also a length mismatch, and caught.
    assert!(Hasher::restore(DigestAlgorithm::Sha512, &state).is_err());
}

#[test]
fn known_digests() {
    let empty = digest_of(DigestAlgorithm::Sha256, b"").unwrap();
    assert_eq!(
        empty.to_text(),
        "sha256:e3b0c44298fc1c149afbf4c8996fb92427ae41e4649b934ca495991b7852b855"
    );
    let abc = digest_of(DigestAlgorithm::Sha256, b"abc").unwrap();
    assert_eq!(
        abc.to_text(),
        "sha256:ba7816bf8f01cfea414140de5dae2223b00361a396177a9cb410ff61f20015ad"
    );
    let long = digest_of(DigestAlgorithm::Sha512, b"abc").unwrap();
    assert_eq!(
        long.to_text(),
        "sha512:ddaf35a193617abacc417349ae20413112e6fa4e89a97ea20a9eeee64b55d39a2192992a274fc1a836ba3c23a3feebbd454d4423643ce80e2a9ac94fa54ca49f"
    );
    assert!(same_digest(&abc, &abc));
    assert!(!same_digest(&abc, &empty));
    assert!(!same_digest(&abc, &long));
}

#[test]
fn long_content_hashes_alike_in_any_pieces() {
    let content: Vec<u8> = (0..1000u32).map(|i| (i % 251) as u8).collect();
    for algorithm in [DigestAlgorithm::Sha256, DigestAlgorithm::Sha512] {
        let whole = digest_of(algorithm, &content).unwrap();
        for cut in [1usize, 63, 64, 65, 127, 128, 129, 999] {
            let mut h = Hasher::new(algorithm);
            assert!(h.has_room(1000));
            h.update(&content[..cut]);
            let state = h.serialize_state();
            let mut h = Hasher::restore(algorithm, &state).unwrap();
            h.update(&content[cut..]);
            assert_eq!(h.finalize(), whole);
        }
    }
}

// --- paths ---------------------------------------------------------------------

#[test]
fn blob_path_is_three_levels_of_two_hex_chars_and_the_file_is_the_blob() {
    let digest = Digest::parse(&("sha256:".to_string() + &"ab".repeat(32))).expect("digest");
    let (dir, file) = blob_path("/r", &digest);
    assert_eq!(dir, "/r/blobs/sha256/ab/ab/ab");
    assert_eq!(file, join(&dir, &"ab".repeat(32)));
    // The leaf *is* the blob.
    assert_ne!(file.rsplit('/').next(), Some("data"));
}

#[test]
fn sha512_lands_under_its_own_algorithm_directory() {
    let digest = Digest::parse(&("sha512:".to_string() + &"0f".repeat(64))).expect("digest");
    let (dir, _) = blob_path("/r", &digest);
    assert_eq!(dir, "/r/blobs/sha512/0f/0f/0f");
}

#[test]
fn paths_join_and_part() {
    assert_eq!(upload_path("/r", "abc"), "/r/uploads/abc");
    assert_eq!(join("/r", "a"), "/r/a");
    assert_eq!(parent("/r/a"), Some("/r".to_string()));
}

/// Run a plan against a set of directories; `race` are levels that another writer
/// creates in between, `files` are paths where a file squats.
fn run(plan: &mut DirPlan, dirs: &mut Vec<String>, race: &[&str], files: &[&str]) -> Result<Vec<String>, String> {
    let mut synced = Vec::new();
    loop {
        match plan.next_move() {
            DirMove::Probe(path) => {
                let there = dirs.contains(&path) || files.contains(&path.as_str());
                plan.probed(there);
            }
            DirMove::Create(path) => {
                let outcome = if race.contains(&path.as_str()) || dirs.contains(&path) {
                    Created::AlreadyThere { is_dir: true }
                } else if files.contains(&path.as_str()) {
                    Created::AlreadyThere { is_dir: false }
                } else if files.iter().any(|f| path.starts_with(&format!("{f}/"))) {
                    Created::Failed
                } else {
                    Created::Made
                };
                dirs.push(path.clone());
                if !plan.created(outcome) {
                    return Err(path);
                }
            }
            DirMove::Sync(path) => {
                synced.push(path);
                plan.synced();
            }
            DirMove::Done => return Ok(synced),
        }
    }
}

#[test]
fn missing_levels_are_created_from_the_top_and_each_is_synced_into_its_parent() {
    let mut dirs = vec!["/r/blobs".to_string()];
    let mut plan = DirPlan::new("/r/blobs/sha256/ab", "/r/blobs");
    let synced = run(&mut plan, &mut dirs, &[], &[]).unwrap();
    assert_eq!(dirs, ["/r/blobs", "/r/blobs/sha256", "/r/blobs/sha256/ab"]);
    assert_eq!(synced, ["/r/blobs", "/r/blobs/sha256"]);
}

#[test]
fn a_level_created_by_another_writer_is_no_failure() {
    let mut dirs = vec!["/r/blobs".to_string()];
    let mut plan = DirPlan::new("/r/blobs/sha256/ab", "/r/blobs");
    assert!(run(&mut plan, &mut dirs, &["/r/blobs/sha256"], &[]).is_ok());
}

#[test]
fn a_file_where_a_level_should_be_is_still_an_error() {
    let mut dirs = vec!["/r/blobs".to_string()];
    // Tolerating a level that is already there must not tolerate a *file* squatting
    // on one, which is a broken store rather than a lost race.
    let mut plan = DirPlan::new("/r/blobs/sha256/ab/cd/ef", "/r/blobs");
    assert!(run(&mut plan, &mut dirs, &[], &["/r/blobs/sha256"]).is_err());
}

#[test]
fn a_file_that_appears_in_the_middle_is_an_error_too() {
    let mut plan = DirPlan::new("/r/blobs/sha256", "/r/blobs");
    assert!(matches!(plan.next_move(), DirMove::Probe(p) if p == "/r/blobs/sha256"));
    plan.probed(false);
    assert!(matches!(plan.next_move(), DirMove::Create(p) if p == "/r/blobs/sha256"));
    assert!(!plan.created(Created::AlreadyThere { is_dir: false }));
}

// --- ranges --------------------------------------------------------------------

#[test]
fn conformance_range_cases() {
    let size = 2048;
    let r = ByteRange::Inclusive {
        start: 500,
        end: 1499,
    }
    .resolve(size)
    .expect("500-1499");
    assert_eq!((r.start(), r.end(), r.len()), (500, 1499, 1000));

    let r = ByteRange::From { start: 500 }.resolve(size).expect("500-");
    assert_eq!((r.start(), r.end(), r.len()), (500, 2047, 1548));

    let r = ByteRange::Suffix { len: 500 }.resolve(size).expect("-500");
    assert_eq!((r.start(), r.end(), r.len()), (1548, 2047, 500));

    let r = ByteRange::Inclusive {
        start: 2000,
        end: 5000,
    }
    .resolve(size)
    .expect("2000-5000 clamps to EOF");
    assert_eq!((r.start(), r.end(), r.len()), (2000, 2047, 48));

    assert_eq!(
        ByteRange::Inclusive { start: 500, end: 0 }.resolve(size),
        None,
        "start > end must be a 416"
    );
    assert_eq!(
        ByteRange::Inclusive {
            start: 5000,
            end: 10000
        }
        .resolve(size),
        None,
        "start past EOF must be a 416"
    );
}

#[test]
fn degenerate_ranges() {
    assert_eq!(ByteRange::From { start: 0 }.resolve(0), None);
    assert_eq!(ByteRange::Suffix { len: 0 }.resolve(2048), None);
    // A suffix longer than the blob is the whole blob, not an error.
    let r = ByteRange::Suffix { len: 9999 }
        .resolve(2048)
        .expect("-9999");
    assert_eq!((r.start(), r.end()), (0, 2047));
    // A single byte at the last offset.
    let r = ByteRange::Inclusive {
        start: 2047,
        end: 2047,
    }
    .resolve(2048)
    .expect("last byte");
    assert_eq!(r.len(), 1);
    assert!(!r.is_empty());
}

// --- uploads -------------------------------------------------------------------

#[test]
fn upload_ids_cannot_escape_the_uploads_directory() {
    assert!(UploadId::new("2f1c9a4e-0000-4000-8000-000000000001").is_ok());
    assert!(UploadId::new("..").is_err());
    assert!(UploadId::new(".").is_err());
    assert!(UploadId::new("../../etc/passwd").is_err());
    assert!(UploadId::new("a/b").is_err());
    assert!(UploadId::new("").is_err());
    assert!(UploadId::new(&"x".repeat(129)).is_err());
}

#[test]
fn a_resumed_upload_commits_under_the_digest_of_all_its_bytes() {
    let id = UploadId::new("u1").unwrap();
    let mut first = Upload::create(id, DigestAlgorithm::Sha256);
    assert!(first.has_room(6));
    assert_eq!(first.appended(b"hello "), 6);
    let state = first.hasher_state();
    let mut second =
        Upload::resume(UploadId::new("u1").unwrap(), DigestAlgorithm::Sha256, 6, &state)
            .unwrap();
    assert_eq!(second.offset(), 6);
    assert_eq!(second.appended(b"world"), 11);
    let store = BlobStore::new("/r");
    let whole = digest_of(DigestAlgorithm::Sha256, b"hello world").unwrap();
    assert_eq!(store.check_commit(second, &whole).unwrap(), 11);
}

#[test]
fn a_commit_under_the_wrong_digest_is_refused() {
    let mut upload = Upload::create(UploadId::new("u2").unwrap(), DigestAlgorithm::Sha256);
    upload.appended(b"real");
    let other = digest_of(DigestAlgorithm::Sha256, b"other").unwrap();
    let real = digest_of(DigestAlgorithm::Sha256, b"real").unwrap();
    let e = BlobStore::new("/r").check_commit(upload, &other).unwrap_err();
    assert_eq!(
        e.message(),
        format!(
            "invalid digest: digest mismatch: client declared {}, content hashes to {}",
            other.to_text(),
            real.to_text()
        )
    );
}

#[test]
fn a_session_cannot_be_resumed_from_a_broken_hasher() {
    let id = UploadId::new("u3").unwrap();
    let e = match Upload::resume(id, DigestAlgorithm::Sha256, 5, &[1, 2]) {
        Ok(_) => panic!("resumed"),
        Err(e) => e,
    };
    assert_eq!(
        e.message(),
        "storage error: corrupt sha256 hasher state: expected 104 bytes, got 2"
    );
}

#[test]
fn chunks_go_where_the_last_one_ended() {
    let mut upload = Upload::create(UploadId::new("u4").unwrap(), DigestAlgorithm::Sha256);
    assert_eq!(upload.plan_append(0, 3).unwrap(), AppendMove::Write { at: 0 });
    upload.appended(b"abc");
    assert_eq!(upload.plan_append(3, 0).unwrap(), AppendMove::Nothing);
    assert_eq!(
        upload.plan_append(2, 1).unwrap_err().message(),
        "invalid data: out-of-order chunk: upload u4 is at offset 3, chunk starts at 2"
    );
    assert_eq!(upload.check_staging("/u", 3).unwrap(), ResumeMove::AsIs);
    assert_eq!(upload.check_staging("/u", 9).unwrap(), ResumeMove::Truncate { to: 3 });
    assert_eq!(
        upload.check_staging("/u", 1).unwrap_err().message(),
        "storage error: upload /u is 1 bytes but its session records offset 3"
    );
}

#[test]
fn algorithms_have_names() {
    assert_eq!(DigestAlgorithm::Sha256.as_str(), "sha256");
    assert!(matches!(DigestAlgorithm::from_name("sha512"), Ok(DigestAlgorithm::Sha512)));
    assert_eq!(
        DigestAlgorithm::from_name("md5").unwrap_err().message(),
        "invalid digest: unsupported digest algorithm \"md5\""
    );
    assert!(matches!(DigestAlgorithm::of(&Digest::Sha512([1; 64])), DigestAlgorithm::Sha512));
}
