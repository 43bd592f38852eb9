//! Reading the variable-length tail off an encoded key.
//!
//! An engine cursor is a whole key, and every list hands back a token the caller
//! can put in a URL - a tag name, a digest - rather than an opaque blob.
use vstd::prelude::*;
use vstd::utf8::*;

use crate::bytes::{after, has_prefix, lemma_has_prefix_concat};
use crate::digest::{encoded_digest_is_self_delimiting, Digest};
use crate::keys::{
    blob_ref_key, digest_key, edge_key, manifest_tag_key, parse_repo_id, repo_bytes,
    repo_bytes_round_trip, repo_of_bytes,
};
use crate::types::RepoId;

verus! {

/// `<prefix> <repo:4>`.
pub const REPO_SCOPED_HEAD: usize = 5;

/// The digest that stands in a key from position `at` on.
pub open spec fn digest_at(key: Seq<u8>, at: int) -> Option<Digest> {
    if 0 <= at <= key.len() && exists|d: Digest| has_prefix(after(key, at), #[trigger] d.encoded()) {
        Some(choose|d: Digest| has_prefix(after(key, at), #[trigger] d.encoded()))
    } else {
        None
    }
}

/// The text that a key holds from position `at` on.
pub open spec fn text_at(key: Seq<u8>, at: int) -> Option<Seq<char>> {
    if 0 <= at <= key.len() && valid_utf8(after(key, at)) {
        Some(decode_utf8(after(key, at)))
    } else {
        None
    }
}

/// The second of two digests behind a key's repo.
pub open spec fn second_digest_of(key: Seq<u8>) -> Option<Digest> {
    match digest_at(key, 5) {
        Some(first) => digest_at(key, 5 + first.encoded().len() as int),
        None => None,
    }
}

/// The repo and manifest of a reference edge.
pub open spec fn blob_ref_target_of(key: Seq<u8>) -> Option<(RepoId, Digest)> {
    match digest_at(key, 1) {
        Some(blob) => {
            let at = 1 + blob.encoded().len() as int;
            if at + 4 <= key.len() {
                match digest_at(key, at + 4) {
                    Some(manifest) => Some(
                        (repo_of_bytes(key.subrange(at, at + 4))->0, manifest),
                    ),
                    None => None,
                }
            } else {
                None
            }
        },
        None => None,
    }
}

/// A digest found at a place is the digest there.
pub proof fn lemma_digest_at(key: Seq<u8>, at: int, d: Digest)
    requires
        0 <= at <= key.len(),
        has_prefix(after(key, at), d.encoded()),
    ensures
        digest_at(key, at) == Some(d),
{
    let x = choose|x: Digest| has_prefix(after(key, at), #[trigger] x.encoded());
    encoded_digest_is_self_delimiting(after(key, at), x, d);
}

/// A text found at a place is the text there.
pub proof fn lemma_text_at(key: Seq<u8>, at: int, s: Seq<char>)
    requires
        0 <= at <= key.len(),
        encode_utf8(s) == after(key, at),
    ensures
        text_at(key, at) == Some(s),
{
    encode_utf8_valid_utf8(s);
    encode_utf8_decode_utf8(s);
}

/// The digest in `key` from `at` on, and its length.
fn decode_at(key: &[u8], at: usize) -> (r: Option<(Digest, usize)>)
    ensures
        match r {
            Some((d, n)) => digest_at(key@, at as int) == Some(d) && n == d.encoded().len() && at
                + n <= key.len(),
            None => digest_at(key@, at as int) is None,
        },
{
    if at > key.len() {
        return None;
    }
    let r = Digest::decode(vstd::slice::slice_subrange(key, at, key.len()));
    proof {
        if let Some((d, _)) = r {
            lemma_digest_at(key@, at as int, d);
        }
    }
    r
}

/// The digest immediately after a key's repo component: of a manifest, of a
/// repo's blob, of a manifest's tag, and the *subject* of a referrer edge or the
/// *child* of a parent edge.
pub fn digest_after_repo(key: &[u8]) -> (r: Option<Digest>)
    ensures
        r == digest_at(key@, 5),
{
    match decode_at(key, REPO_SCOPED_HEAD) {
        Some((d, _)) => Some(d),
        None => None,
    }
}

/// The second digest of a two-digest repo-scoped key: the referrer of a referrer
/// edge, the parent of a parent edge.
pub fn second_digest_after_repo(key: &[u8]) -> (r: Option<Digest>)
    ensures
        r == second_digest_of(key@),
{
    match decode_at(key, REPO_SCOPED_HEAD) {
        Some((_, used)) => match decode_at(key, REPO_SCOPED_HEAD + used) {
            Some((d, _)) => Some(d),
            None => None,
        },
        None => None,
    }
}

/// `R <blob> <repo:4> <manifest>` - the referencing manifest and the repo it
/// lives in. The blob digest is the caller's scan prefix, so it is not returned.
pub fn blob_ref_target(key: &[u8]) -> (r: Option<(RepoId, Digest)>)
    ensures
        r == blob_ref_target_of(key@),
{
    let used: usize = match decode_at(key, 1) {
        Some((_, used)) => used,
        None => return None,
    };
    let at: usize = 1 + used;
    if key.len() - at < 4 {
        return None;
    }
    let repo = parse_repo_id(vstd::slice::slice_subrange(key, at, at + 4));
    match (repo, decode_at(key, at + 4)) {
        (Some(repo), Some((manifest, _))) => Some((repo, manifest)),
        _ => None,
    }
}

/// The decoders read back what the encoders wrote, whichever algorithm the
/// digests in front used.
pub proof fn suffixes_match_the_encoders(
    prefix: u8,
    repo: RepoId,
    a: Digest,
    b: Digest,
    tag: Seq<char>,
)
    ensures
        digest_at(digest_key(prefix, repo, a), 5) == Some(a),
        digest_at(manifest_tag_key(repo, a, tag), 5) == Some(a),
        second_digest_of(edge_key(prefix, repo, a, b)) == Some(b),
        blob_ref_target_of(blob_ref_key(a, repo, b)) == Some((repo, b)),
{
    let k = digest_key(prefix, repo, a);
    assert(after(k, 5) =~= a.encoded() + Seq::<u8>::empty());
    lemma_has_prefix_concat(a.encoded(), Seq::empty());
    lemma_digest_at(k, 5, a);
    let t = manifest_tag_key(repo, a, tag);
    assert(after(t, 5) =~= a.encoded() + encode_utf8(tag));
    lemma_has_prefix_concat(a.encoded(), encode_utf8(tag));
    lemma_digest_at(t, 5, a);
    let e = edge_key(prefix, repo, a, b);
    assert(after(e, 5) =~= a.encoded() + b.encoded());
    lemma_has_prefix_concat(a.encoded(), b.encoded());
    lemma_digest_at(e, 5, a);
    let n = 5 + a.encoded().len() as int;
    assert(after(e, n) =~= b.encoded() + Seq::<u8>::empty());
    lemma_has_prefix_concat(b.encoded(), Seq::empty());
    lemma_digest_at(e, n, b);
    let r = blob_ref_key(a, repo, b);
    assert(after(r, 1) =~= a.encoded() + (repo_bytes(repo) + b.encoded()));
    lemma_has_prefix_concat(a.encoded(), repo_bytes(repo) + b.encoded());
    lemma_digest_at(r, 1, a);
    let at = 1 + a.encoded().len() as int;
    assert(r.subrange(at, at + 4) =~= repo_bytes(repo));
    repo_bytes_round_trip(repo);
    assert(after(r, at + 4) =~= b.encoded() + Seq::<u8>::empty());
    lemma_digest_at(r, at + 4, b);
}

/// What stands under a repo's tag scan and reads back, reads back its tag.
pub proof fn tag_suffix_matches_the_encoder(repo: RepoId, d: Digest, tag: Seq<char>)
    ensures
        text_at(manifest_tag_key(repo, d, tag), 5 + d.encoded().len() as int) == Some(tag),
{
    let k = manifest_tag_key(repo, d, tag);
    lemma_has_prefix_concat(digest_key(crate::keys::PREFIX_MANIFEST_TAG, repo, d), encode_utf8(tag));
    lemma_text_at(k, 5 + d.encoded().len() as int, tag);
}

} // verus!
