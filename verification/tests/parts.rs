//! The parts that everything else is made of.

use summ::bytes::{append_bytes, bytes_eq, bytes_lt, starts_with};
use summ::digest::Digest;
use summ::registry::error::RegistryError;
use summ::error::SummError;
use summ::server::handlers::common::media_type_of;
use summ::server::http::{checked_header, header_value};
use summ::server::manifest_json::{describe, read_manifest};
use summ::storage::read::{Blob, Moved, NextMove, ReadAt, Transfer};
use summ::storage::read;
use summ::storage::store::BlobStore;
use summ::table::Table;
use summ::text::{
    chars_of, decimal_text, find_char, hex_encode, is_text, parse_u64, rfind_char, split_chars,
    str_eq, strip_prefix, text_of, trim,
};

fn chars(s: &str) -> Vec<char> {
    chars_of(s)
}

#[test]
fn bytes_compare_and_join() {
    assert!(bytes_eq(b"ab", b"ab") && !bytes_eq(b"ab", b"abc"));
    assert!(bytes_lt(b"ab", b"abc") && bytes_lt(b"aa", b"ab"));
    assert!(!bytes_lt(b"ab", b"ab") && !bytes_lt(b"b", b"ab"));
    assert!(starts_with(b"abc", b"ab") && !starts_with(b"a", b"ab"));
    let mut v = vec![1];
    append_bytes(&mut v, &[2, 3]);
    assert_eq!(v, [1, 2, 3]);
}

#[test]
fn texts_are_taken_apart_and_put_together() {
    assert!(str_eq("a", "a") && !str_eq("a", "b"));
    assert_eq!(find_char(&chars("a:b:c"), ':'), 1);
    assert_eq!(find_char(&chars("abc"), ':'), 3);
    assert_eq!(rfind_char(&chars("a:b:c"), ':'), Some(3));
    assert_eq!(rfind_char(&chars("abc"), ':'), None);
    let parts: Vec<String> = split_chars(&chars("a//b"), '/').iter().map(|p| text_of(p)).collect();
    assert_eq!(parts, ["a", "", "b"]);
    assert_eq!(text_of(trim(&chars(" \t x y\u{a0}\u{3000}"))), "x y");
    assert_eq!(strip_prefix(&chars("bytes=1"), "bytes=").map(text_of), Some("1".to_string()));
    assert_eq!(strip_prefix(&chars("byte"), "bytes="), None);
    assert!(is_text(&chars("*"), "*"));
}

#[test]
fn numbers_are_written_and_read() {
    assert_eq!(decimal_text(0), "0");
    assert_eq!(decimal_text(u64::MAX), "18446744073709551615");
    assert_eq!(hex_encode(&[0, 0xab, 0xff]), "00abff");
    assert_eq!(parse_u64(&chars("18446744073709551615")), Some(u64::MAX));
    assert_eq!(parse_u64(&chars("+7")), Some(7));
    for bad in ["", "+", "-1", "1.5", "18446744073709551616", " 1"] {
        assert_eq!(parse_u64(&chars(bad)), None, "{bad}");
    }
}

#[test]
fn a_table_keeps_its_keys_in_order() {
    let mut table: Table<String, String> = Table::new();
    for key in ["b", "a", "c", "b"] {
        table.insert(key.to_string(), format!("{key}!"));
    }
    assert_eq!(table.len(), 3);
    let keys: Vec<&String> = (0..3).map(|i| table.key_at(i)).collect();
    assert_eq!(keys, ["a", "b", "c"]);
    assert_eq!(table.value_at(1), "b!");
    assert_eq!(table.get(&"c".to_string()), Some(&"c!".to_string()));
    assert_eq!(table.remove(&"b".to_string()), Some("b!".to_string()));
    assert_eq!(table.remove(&"b".to_string()), None);
    assert!(!table.contains_key(&"b".to_string()));

    let mut digests: Table<Digest, Vec<u8>> = Table::new();
    digests.insert(Digest::Sha512([0; 64]), vec![2]);
    digests.insert(Digest::Sha256([9; 32]), vec![1]);
    assert_eq!(digests.key_at(0), &Digest::Sha256([9; 32]));
}

#[test]
fn header_values_hold_no_control_characters() {
    assert_eq!(header_value("a b".to_string()), "a b");
    assert_eq!(header_value("a\nb".to_string()), "invalid");
    assert_eq!(checked_header("a\tb".to_string()), Some("a\tb".to_string()));
    assert_eq!(checked_header("\u{0}".to_string()), None);
    assert_eq!(media_type_of("text/x ; q=1"), "text/x");
    assert_eq!(media_type_of("text/y"), "text/y");
}

#[test]
fn a_manifest_is_described_by_what_it_says() {
    let d = format!("sha256:{}", "ab".repeat(32));
    let said = describe(
        Some(d.clone()),
        None,
        Some("config/type".to_string()),
        Some(vec![
            ("b".to_string(), Some("2".to_string())),
            ("a".to_string(), Some("1".to_string())),
            ("n".to_string(), None),
        ]),
    );
    assert_eq!(said.subject, Some(Digest::Sha256([0xab; 32])));
    assert_eq!(said.artifact_type.as_deref(), Some("config/type"));
    assert_eq!(said.annotations.len(), 2);
    assert_eq!(said.annotations.key_at(0), "a");

    let read = read_manifest(
        format!(r#"{{"artifactType":"own/type","config":{{"mediaType":"c"}},"subject":{{"digest":"{d}"}}}}"#)
            .as_bytes(),
    );
    assert_eq!(read.artifact_type.as_deref(), Some("own/type"));
    assert_eq!(read.subject, Some(Digest::Sha256([0xab; 32])));
    let nothing = read_manifest(b"[1,2]");
    assert!(nothing.subject.is_none() && nothing.artifact_type.is_none());
    assert_eq!(nothing.annotations.len(), 0);
    assert!(describe(Some("junk".to_string()), None, None, None).subject.is_none());
}

#[test]
fn a_blob_is_read_chunk_after_chunk() {
    let blob = Blob::new(10, 4);
    let mut stream = blob.stream();
    assert_eq!((stream.len(), stream.size_hint()), (10, 3));
    let mut reads = Vec::new();
    let mut next = stream.spawn_next();
    while let Some(read) = next {
        reads.push((read.offset, read.len));
        next = stream.finished(true);
    }
    assert_eq!(reads, [(0, 4), (4, 4), (8, 2)]);
    assert!(stream.is_empty());

    let window = blob.resolve(read::ByteRange::Inclusive { start: 3, end: 7 }).unwrap();
    let mut stream = blob.stream_range(window);
    assert_eq!(stream.len(), 5);
    assert_eq!(stream.spawn_next(), Some(ReadAt { offset: 3, len: 4 }));
    // One failed read ends the stream.
    assert_eq!(stream.finished(false), None);
    assert!(stream.is_empty());
}

#[test]
fn a_transfer_goes_on_until_everything_moved() {
    let mut t = Transfer::new(100, 10).unwrap();
    assert_eq!(t.begin(), NextMove::Again { done: 0, at: 100 });
    assert_eq!(t.step(Moved::Bytes(4)), NextMove::Again { done: 4, at: 104 });
    assert_eq!(t.step(Moved::Interrupted), NextMove::Again { done: 4, at: 104 });
    assert_eq!(t.step(Moved::Bytes(6)), NextMove::Complete);
    let mut short = Transfer::new(0, 3).unwrap();
    assert_eq!(short.step(Moved::Bytes(0)), NextMove::CutShort);
    let mut broken = Transfer::new(0, 3).unwrap();
    assert_eq!(broken.step(Moved::Failed), NextMove::GiveUp);
    assert!(Transfer::new(u64::MAX, 1).is_none());
    assert_eq!(Transfer::new(5, 0).unwrap().begin(), NextMove::Complete);
}

#[test]
fn reads_are_never_tiny() {
    let store = BlobStore::new("/r").with_read_chunk_size(1);
    assert_eq!(store.root(), "/r");
    assert!(store.read_chunk_size() > 1);
    let large = BlobStore::new("/r").with_read_chunk_size(8 * 1024 * 1024);
    assert_eq!(large.read_chunk_size(), 8 * 1024 * 1024);
}

#[test]
fn only_a_failing_store_is_not_the_clients_fault() {
    assert!(RegistryError::NameUnknown { repo: "a".to_string() }.is_client_error());
    assert!(!RegistryError::Meta(SummError::NotFound).is_client_error());
}
