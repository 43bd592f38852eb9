//! Behaviour the registry depends on at scale: bounded paging, cheap existence
//! checks and atomic batches.

use summ::digest::Digest;
use summ::keys;
use summ::meta::engine::{MetaEngine, WriteBatch};
use summ::meta::memory_engine::MemoryEngine;
use summ::meta::range::{lower_bound, prefix_successor, LowerBound, PageBuilder};

fn digest(b: u8) -> Digest {
    Digest::Sha256([b; 32])
}

// --- prefixes ------------------------------------------------------------------

#[test]
fn successor_bumps_the_last_byte() {
    assert_eq!(prefix_successor(b"abc").unwrap(), b"abd".to_vec());
}

#[test]
fn successor_carries_over_trailing_ff() {
    assert_eq!(prefix_successor(&[1, 2, 0xff]).unwrap(), vec![1, 3]);
    assert_eq!(prefix_successor(&[1, 0xff, 0xff]).unwrap(), vec![2]);
}

#[test]
fn an_all_ff_prefix_has_no_successor() {
    assert_eq!(prefix_successor(&[0xff, 0xff]), None);
}

#[test]
fn successor_bounds_every_key_with_the_prefix() {
    let prefix = &[1u8, 2, 0xff];
    let end = prefix_successor(prefix).unwrap();
    for tail in [vec![], vec![0], vec![0xff], vec![0xff, 0xff]] {
        let mut key = prefix.to_vec();
        key.extend_from_slice(&tail);
        assert!(key.as_slice() >= prefix.as_slice() && key < end, "{key:?}");
    }
}

#[test]
fn a_scan_begins_at_its_prefix_or_behind_its_cursor() {
    assert!(matches!(lower_bound(b"ab", None), LowerBound::From(k) if k == b"ab"));
    assert!(matches!(lower_bound(b"ab", Some(b"abz")), LowerBound::After(k) if k == b"abz"));
    // A cursor before the range does not pull the scan out of it.
    assert!(matches!(lower_bound(b"ab", Some(b"aa")), LowerBound::From(k) if k == b"ab"));
}

#[test]
fn a_page_is_built_entry_by_entry() {
    let mut page = PageBuilder::new(b"a", 2);
    assert!(page.offer(b"a1", b"x"));
    assert!(page.offer(b"a2", b"y"));
    assert!(!page.offer(b"a3", b"z"), "one past the limit is enough to know");
    let page = page.finish();
    assert_eq!(page.entries.len(), 2);
    assert_eq!(page.next, Some(b"a2".to_vec()));

    let mut page = PageBuilder::new(b"a", 2);
    assert!(page.offer(b"a1", b"x"));
    assert!(!page.offer(b"b1", b"y"), "the prefix is left");
    let page = page.finish();
    assert_eq!(page.entries, vec![(b"a1".to_vec(), b"x".to_vec())]);
    assert_eq!(page.next, None);
}

// --- the engine ----------------------------------------------------------------

#[test]
fn scan_pages_in_order_and_stops_at_the_prefix() {
    let mut db = MemoryEngine::new();
    let mut batch = WriteBatch::new();
    for i in 0..10u8 {
        batch.put(keys::tag(1, &format!("v{i}")), digest(i).raw().to_vec());
    }
    // A neighbouring repo the scan must not stray into.
    batch.put(keys::tag(2, "v0"), digest(99).raw().to_vec());
    db.apply(&batch).unwrap();

    let prefix = keys::tags_in_repo(1);
    let mut seen = Vec::new();
    let mut cursor: Option<Vec<u8>> = None;
    loop {
        let page = db.scan(&prefix, cursor.as_deref(), 3).unwrap();
        assert!(page.entries.len() <= 3, "page exceeded the requested limit");
        for (k, _) in &page.entries {
            seen.push(keys::parse_tag_suffix(k).unwrap().to_string());
        }
        match page.next {
            Some(next) => cursor = Some(next),
            None => break,
        }
    }

    assert_eq!(seen.len(), 10, "paging lost or duplicated entries");
    let mut sorted = seen.clone();
    sorted.sort();
    assert_eq!(seen, sorted, "pages did not come back in key order");
}

#[test]
fn a_scan_never_materialises_more_than_its_limit() {
    let mut db = MemoryEngine::new();
    let mut batch = WriteBatch::new();
    for i in 0..5_000u32 {
        batch.put(
            keys::repo_by_name(&format!("repo{i:06}")),
            i.to_be_bytes().to_vec(),
        );
    }
    db.apply(&batch).unwrap();

    let page = db.scan(&keys::repos_by_name(), None, 50).unwrap();
    assert_eq!(page.entries.len(), 50);
    assert!(page.next.is_some(), "expected a cursor for the next page");
}

#[test]
fn exists_prefix_answers_the_purge_question() {
    let mut db = MemoryEngine::new();
    let layer = digest(1);
    let orphan = digest(2);

    let mut batch = WriteBatch::new();
    batch.set(keys::blob_ref(&layer, 7, &digest(50)));
    db.apply(&batch).unwrap();

    assert!(db.exists_prefix(&keys::blob_refs(&layer)).unwrap());
    assert!(
        !db.exists_prefix(&keys::blob_refs(&orphan)).unwrap(),
        "an unreferenced blob must report no references"
    );
    // Referenced by repo 7, but not by repo 8 - which is what gates serving.
    assert!(db
        .exists_prefix(&keys::blob_refs_in_repo(&layer, 7))
        .unwrap());
    assert!(!db
        .exists_prefix(&keys::blob_refs_in_repo(&layer, 8))
        .unwrap());
}

#[test]
fn dropping_the_last_reference_makes_a_blob_purgeable() {
    let mut db = MemoryEngine::new();
    let layer = digest(1);
    let (m1, m2) = (digest(10), digest(11));

    let mut batch = WriteBatch::new();
    batch
        .set(keys::blob_ref(&layer, 1, &m1))
        .set(keys::blob_ref(&layer, 1, &m2));
    db.apply(&batch).unwrap();

    let mut batch = WriteBatch::new();
    batch.delete(keys::blob_ref(&layer, 1, &m1));
    db.apply(&batch).unwrap();
    assert!(
        db.exists_prefix(&keys::blob_refs(&layer)).unwrap(),
        "one reference remains, blob must survive"
    );

    let mut batch = WriteBatch::new();
    batch.delete(keys::blob_ref(&layer, 1, &m2));
    db.apply(&batch).unwrap();
    assert!(!db.exists_prefix(&keys::blob_refs(&layer)).unwrap());
}

#[test]
fn delete_prefix_removes_only_its_own_range() {
    let mut db = MemoryEngine::new();
    let manifest = digest(5);

    let mut batch = WriteBatch::new();
    batch
        .set(keys::manifest_tag(1, &manifest, "latest"))
        .set(keys::manifest_tag(1, &manifest, "v1"))
        .set(keys::manifest_tag(1, &digest(6), "other"))
        .set(keys::manifest_tag(2, &manifest, "elsewhere"));
    db.apply(&batch).unwrap();

    let mut batch = WriteBatch::new();
    batch.delete_prefix(keys::tags_of_manifest(1, &manifest));
    db.apply(&batch).unwrap();

    assert!(!db
        .exists_prefix(&keys::tags_of_manifest(1, &manifest))
        .unwrap());
    assert!(db
        .exists_prefix(&keys::tags_of_manifest(1, &digest(6)))
        .unwrap());
    assert!(db
        .exists_prefix(&keys::tags_of_manifest(2, &manifest))
        .unwrap());
}

#[test]
fn a_batch_is_atomic_across_every_key_a_push_touches() {
    let mut db = MemoryEngine::new();
    let manifest = digest(20);
    let layers = [digest(21), digest(22)];

    let mut batch = WriteBatch::new();
    batch.put(keys::manifest(1, &manifest), b"record".to_vec());
    batch.put(keys::manifest_body(1, &manifest), b"json".to_vec());
    for layer in &layers {
        batch
            .set(keys::blob_ref(layer, 1, &manifest))
            .set(keys::repo_blob(1, layer));
    }
    batch.put(keys::tag(1, "latest"), manifest.raw().to_vec());
    batch.set(keys::manifest_tag(1, &manifest, "latest"));
    db.apply(&batch).unwrap();

    assert!(db.get(&keys::manifest(1, &manifest)).unwrap().is_some());
    assert!(db
        .get(&keys::manifest_body(1, &manifest))
        .unwrap()
        .is_some());
    assert!(db.get(&keys::tag(1, "latest")).unwrap().is_some());
    for layer in &layers {
        assert!(db.exists_prefix(&keys::blob_refs(layer)).unwrap());
    }
}

#[test]
fn catalog_pages_by_name_not_by_id() {
    let mut db = MemoryEngine::new();
    // Numbered out of alphabetical order so id order and name order differ.
    let mut batch = WriteBatch::new();
    for (id, name) in ["zebra", "alpine", "nginx"].iter().enumerate() {
        batch.put(keys::repo_by_name(name), (id as u32).to_be_bytes().to_vec());
    }
    db.apply(&batch).unwrap();

    let page = db.scan(&keys::repos_by_name(), None, 10).unwrap();
    let names: Vec<_> = page
        .entries
        .iter()
        .map(|(k, _)| keys::parse_repo_name(k).unwrap())
        .collect();
    assert_eq!(names, ["alpine", "nginx", "zebra"]);
}

#[test]
fn the_last_word_of_a_batch_counts() {
    let mut db = MemoryEngine::new();
    let mut batch = WriteBatch::new();
    assert!(batch.is_empty());
    batch
        .put(b"k".to_vec(), b"1".to_vec())
        .delete(b"k".to_vec())
        .put(b"k".to_vec(), b"2".to_vec());
    assert_eq!(batch.len(), 3);
    db.apply(&batch).unwrap();
    assert_eq!(db.get(b"k").unwrap(), Some(b"2".to_vec()));
    // Applying it again changes nothing.
    db.apply(&batch).unwrap();
    assert_eq!(db.scan(b"", None, 10).unwrap().entries.len(), 1);
}
