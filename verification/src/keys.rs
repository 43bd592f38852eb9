//! Binary key encoding.
//!
//! Every key begins with a single-byte prefix; uppercase prefixes hold registry
//! data, lowercase hold the repo-name interner. Repo names are interned to a
//! `u32` so a long name is not repeated in every key, and digests are stored
//! raw rather than as hex. Fan-in relationships are one key per edge, so adding
//! a reference is a plain insert and "is this still referenced?" a single seek.
use vstd::prelude::*;
use vstd::utf8::*;

use crate::bytes::{
    after, append_bytes, has_prefix, lemma_has_prefix_concat, lemma_prefix_chain, lex_common_head,
    lex_lt, starts_with,
};
use crate::digest::{encoded_digest_is_self_delimiting, Digest};
use crate::text::utf8_text;
use crate::time::Timestamp;
use crate::types::RepoId;

verus! {

/// `M`
pub const PREFIX_MANIFEST: u8 = 0x4d;

/// `B`
pub const PREFIX_MANIFEST_BODY: u8 = 0x42;

/// `T`
pub const PREFIX_TAG: u8 = 0x54;

/// `G`
pub const PREFIX_MANIFEST_TAG: u8 = 0x47;

/// `L`
pub const PREFIX_BLOB: u8 = 0x4c;

/// `R`
pub const PREFIX_BLOB_REF: u8 = 0x52;

/// `P`
pub const PREFIX_REPO_BLOB: u8 = 0x50;

/// `S`
pub const PREFIX_CHILD_PARENT: u8 = 0x53;

/// `F`
pub const PREFIX_REFERRER: u8 = 0x46;

/// `U`
pub const PREFIX_UPLOAD: u8 = 0x55;

/// `n`
pub const PREFIX_REPO_BY_NAME: u8 = 0x6e;

/// `i`
pub const PREFIX_REPO_BY_ID: u8 = 0x69;

/// `H`
pub const PREFIX_TAG_HISTORY: u8 = 0x48;

/// `J`
pub const PREFIX_MANIFEST_TAG_HISTORY: u8 = 0x4a;

/// `A`
pub const PREFIX_COUNTER: u8 = 0x41;

/// `m`
pub const SCOPE_MANIFEST: u8 = 0x6d;

/// `t`
pub const SCOPE_TAG: u8 = 0x74;

/// `r`
pub const SCOPE_REPO: u8 = 0x72;

pub const REPO_LEN: usize = 4;

/// A repo id as its four bytes, most significant first.
pub open spec fn repo_bytes(repo: RepoId) -> Seq<u8> {
    seq![
        (repo / 256 / 256 / 256) as u8,
        (repo / 256 / 256 % 256) as u8,
        (repo / 256 % 256) as u8,
        (repo % 256) as u8,
    ]
}

/// The head that a repo's keys of one kind share.
pub open spec fn repo_head(prefix: u8, repo: RepoId) -> Seq<u8> {
    seq![prefix] + repo_bytes(repo)
}

/// The key of a kind that is scoped to a repo and then to a digest.
pub open spec fn digest_key(prefix: u8, repo: RepoId, digest: Digest) -> Seq<u8> {
    repo_head(prefix, repo) + digest.encoded()
}

/// The key of an edge between two digests inside a repo.
pub open spec fn edge_key(prefix: u8, repo: RepoId, from: Digest, to: Digest) -> Seq<u8> {
    digest_key(prefix, repo, from) + to.encoded()
}

pub open spec fn tag_key(repo: RepoId, tag: Seq<char>) -> Seq<u8> {
    repo_head(PREFIX_TAG, repo) + encode_utf8(tag)
}

pub open spec fn manifest_tag_key(repo: RepoId, digest: Digest, tag: Seq<char>) -> Seq<u8> {
    digest_key(PREFIX_MANIFEST_TAG, repo, digest) + encode_utf8(tag)
}

pub open spec fn blob_key(digest: Digest) -> Seq<u8> {
    seq![PREFIX_BLOB] + digest.encoded()
}

pub open spec fn blob_refs_key(digest: Digest) -> Seq<u8> {
    seq![PREFIX_BLOB_REF] + digest.encoded()
}

pub open spec fn blob_refs_in_repo_key(digest: Digest, repo: RepoId) -> Seq<u8> {
    blob_refs_key(digest) + repo_bytes(repo)
}

pub open spec fn blob_ref_key(digest: Digest, repo: RepoId, manifest: Digest) -> Seq<u8> {
    blob_refs_in_repo_key(digest, repo) + manifest.encoded()
}

pub open spec fn repo_name_key(name: Seq<char>) -> Seq<u8> {
    seq![PREFIX_REPO_BY_NAME] + encode_utf8(name)
}

fn start(prefix: u8) -> (r: Vec<u8>)
    ensures
        r@ == seq![prefix],
{
    let mut k: Vec<u8> = Vec::new();
    k.push(prefix);
    assert(k@ =~= seq![prefix]);
    k
}

fn push_repo(k: &mut Vec<u8>, repo: RepoId)
    ensures
        final(k)@ == old(k)@ + repo_bytes(repo),
{
    k.push((repo / 256 / 256 / 256) as u8);
    k.push((repo / 256 / 256 % 256) as u8);
    k.push((repo / 256 % 256) as u8);
    k.push((repo % 256) as u8);
    assert(k@ =~= old(k)@ + repo_bytes(repo));
}

fn start_repo(prefix: u8, repo: RepoId) -> (r: Vec<u8>)
    ensures
        r@ == repo_head(prefix, repo),
{
    let mut k = start(prefix);
    push_repo(&mut k, repo);
    k
}

fn repo_digest(prefix: u8, repo: RepoId, digest: &Digest) -> (r: Vec<u8>)
    ensures
        r@ == digest_key(prefix, repo, *digest),
{
    let mut k = start_repo(prefix, repo);
    digest.encode_into(&mut k);
    k
}

// --- manifests ---------------------------------------------------------

/// `M <repo> <digest>` -> `ManifestRecord`
pub fn manifest(repo: RepoId, digest: &Digest) -> (r: Vec<u8>)
    ensures
        r@ == digest_key(PREFIX_MANIFEST, repo, *digest),
{
    repo_digest(PREFIX_MANIFEST, repo, digest)
}

/// `B <repo> <digest>` -> zstd-compressed manifest JSON
pub fn manifest_body(repo: RepoId, digest: &Digest) -> (r: Vec<u8>)
    ensures
        r@ == digest_key(PREFIX_MANIFEST_BODY, repo, *digest),
{
    repo_digest(PREFIX_MANIFEST_BODY, repo, digest)
}

/// Scan prefix for every manifest in a repo, ordered by digest.
pub fn manifests_in_repo(repo: RepoId) -> (r: Vec<u8>)
    ensures
        r@ == repo_head(PREFIX_MANIFEST, repo),
{
    start_repo(PREFIX_MANIFEST, repo)
}

// --- tags --------------------------------------------------------------

/// `T <repo> <tag>` -> digest. Ordered by tag name, which is the order
/// `GET /v2/<name>/tags/list` must return.
pub fn tag(repo: RepoId, name: &str) -> (r: Vec<u8>)
    ensures
        r@ == tag_key(repo, name@),
{
    let mut k = start_repo(PREFIX_TAG, repo);
    append_bytes(&mut k, name.as_bytes());
    k
}

pub fn tags_in_repo(repo: RepoId) -> (r: Vec<u8>)
    ensures
        r@ == repo_head(PREFIX_TAG, repo),
{
    start_repo(PREFIX_TAG, repo)
}

/// `G <repo> <digest> <tag>` -> (). Reverse of `tag`: which tags point here.
pub fn manifest_tag(repo: RepoId, digest: &Digest, tag: &str) -> (r: Vec<u8>)
    ensures
        r@ == manifest_tag_key(repo, *digest, tag@),
{
    let mut k = repo_digest(PREFIX_MANIFEST_TAG, repo, digest);
    append_bytes(&mut k, tag.as_bytes());
    k
}

/// Scan prefix for the tags pointing at one manifest. An empty scan means the
/// manifest is untagged and therefore purgeable.
pub fn tags_of_manifest(repo: RepoId, digest: &Digest) -> (r: Vec<u8>)
    ensures
        r@ == digest_key(PREFIX_MANIFEST_TAG, repo, *digest),
{
    repo_digest(PREFIX_MANIFEST_TAG, repo, digest)
}

/// The text after the first `offset` bytes of a key.
fn text_after(key: &[u8], offset: usize) -> (r: Option<&str>)
    ensures
        match r {
            Some(s) => offset <= key@.len() && encode_utf8(s@) == after(key@, offset as int),
            None => offset > key@.len() || !valid_utf8(after(key@, offset as int)),
        },
{
    if key.len() < offset {
        return None;
    }
    utf8_text(vstd::slice::slice_subrange(key, offset, key.len()))
}

/// Extract the tag suffix from a `G` key.
pub fn parse_manifest_tag_suffix<'a>(key: &'a [u8], digest: &Digest) -> (r: Option<&'a str>)
    ensures
        ({
            let offset = 5 + digest.encoded().len() as int;
            match r {
                Some(s) => offset <= key@.len() && encode_utf8(s@) == after(key@, offset),
                None => offset > key@.len() || !valid_utf8(after(key@, offset)),
            }
        }),
{
    text_after(key, 1 + REPO_LEN + digest.encoded_len())
}

/// Extract the tag suffix from a `T` key.
pub fn parse_tag_suffix(key: &[u8]) -> (r: Option<&str>)
    ensures
        match r {
            Some(s) => key@.len() >= 5 && key@[0] == PREFIX_TAG && encode_utf8(s@) == after(key@, 5),
            None => key@.len() < 5 || key@[0] != PREFIX_TAG || !valid_utf8(after(key@, 5)),
        },
{
    if key.len() == 0 || key[0] != PREFIX_TAG {
        return None;
    }
    text_after(key, 1 + REPO_LEN)
}

// --- blobs -------------------------------------------------------------

/// `L <digest>` -> `BlobRecord`. Global, not repo-scoped: blob content is
/// deduplicated across the whole registry.
pub fn blob(digest: &Digest) -> (r: Vec<u8>)
    ensures
        r@ == blob_key(*digest),
{
    let mut k = start(PREFIX_BLOB);
    digest.encode_into(&mut k);
    k
}

/// `R <digest> <repo> <manifest>` -> (). One key per reference edge.
pub fn blob_ref(digest: &Digest, repo: RepoId, manifest: &Digest) -> (r: Vec<u8>)
    ensures
        r@ == blob_ref_key(*digest, repo, *manifest),
{
    let mut k = blob_refs_in_repo(digest, repo);
    manifest.encode_into(&mut k);
    k
}

/// Scan prefix over every manifest referencing a blob. Purge asks only whether
/// this prefix is empty, which is a single seek rather than a scan.
pub fn blob_refs(digest: &Digest) -> (r: Vec<u8>)
    ensures
        r@ == blob_refs_key(*digest),
{
    let mut k = start(PREFIX_BLOB_REF);
    digest.encode_into(&mut k);
    k
}

/// Scan prefix over one repo's references to a blob. A non-empty result is what
/// authorises serving that blob under that repo name.
pub fn blob_refs_in_repo(digest: &Digest, repo: RepoId) -> (r: Vec<u8>)
    ensures
        r@ == blob_refs_in_repo_key(*digest, repo),
{
    let mut k = blob_refs(digest);
    push_repo(&mut k, repo);
    k
}

/// `P <repo> <digest>` -> (). A repo's blob set, including blobs uploaded but
/// not yet referenced by a manifest. Drives per-repo size stats and cross-repo
/// mount checks.
pub fn repo_blob(repo: RepoId, digest: &Digest) -> (r: Vec<u8>)
    ensures
        r@ == digest_key(PREFIX_REPO_BLOB, repo, *digest),
{
    repo_digest(PREFIX_REPO_BLOB, repo, digest)
}

pub fn blobs_in_repo(repo: RepoId) -> (r: Vec<u8>)
    ensures
        r@ == repo_head(PREFIX_REPO_BLOB, repo),
{
    start_repo(PREFIX_REPO_BLOB, repo)
}

// --- manifest graph ----------------------------------------------------

/// `S <repo> <child> <parent>` -> (). An index lists per-platform manifests as
/// children; a child may be shared by several indexes, so this is an edge set
/// rather than a single parent field.
pub fn child_parent(repo: RepoId, child: &Digest, parent: &Digest) -> (r: Vec<u8>)
    ensures
        r@ == edge_key(PREFIX_CHILD_PARENT, repo, *child, *parent),
{
    let mut k = repo_digest(PREFIX_CHILD_PARENT, repo, child);
    parent.encode_into(&mut k);
    k
}

pub fn parents_of(repo: RepoId, child: &Digest) -> (r: Vec<u8>)
    ensures
        r@ == digest_key(PREFIX_CHILD_PARENT, repo, *child),
{
    repo_digest(PREFIX_CHILD_PARENT, repo, child)
}

/// `F <repo> <subject> <referrer>` -> (). Backs the OCI 1.1 referrers API.
pub fn referrer(repo: RepoId, subject: &Digest, from: &Digest) -> (r: Vec<u8>)
    ensures
        r@ == edge_key(PREFIX_REFERRER, repo, *subject, *from),
{
    let mut k = repo_digest(PREFIX_REFERRER, repo, subject);
    from.encode_into(&mut k);
    k
}

pub fn referrers_of(repo: RepoId, subject: &Digest) -> (r: Vec<u8>)
    ensures
        r@ == digest_key(PREFIX_REFERRER, repo, *subject),
{
    repo_digest(PREFIX_REFERRER, repo, subject)
}

// --- uploads -----------------------------------------------------------

/// `U <uuid>` -> `UploadSession`.
pub fn upload(id: &[u8; 16]) -> (r: Vec<u8>)
    ensures
        r@ == seq![PREFIX_UPLOAD] + id@,
{
    let mut k = start(PREFIX_UPLOAD);
    append_bytes(&mut k, id.as_slice());
    k
}

pub fn uploads() -> (r: Vec<u8>)
    ensures
        r@ == seq![PREFIX_UPLOAD],
{
    start(PREFIX_UPLOAD)
}

// --- tag history ---------------------------------------------------------

/// A `u16` as its two bytes, most significant first.
pub open spec fn u16_bytes(n: u16) -> Seq<u8> {
    seq![(n / 256) as u8, (n % 256) as u8]
}

/// The last `n` bytes of a number, most significant first.
pub open spec fn be_bytes(v: nat, n: nat) -> Seq<u8>
    decreases n,
{
    if n == 0 {
        Seq::empty()
    } else {
        be_bytes(v / 256, (n - 1) as nat).push((v % 256) as u8)
    }
}

/// An instant as history keys hold it: complemented, so that the newest event
/// sorts first.
pub open spec fn instant_bytes(millis: nat) -> Seq<u8> {
    be_bytes((u64::MAX - millis) as nat, 8)
}

pub open spec fn tag_history_key(
    repo: RepoId,
    tag: Seq<char>,
    millis: nat,
    digest: Digest,
) -> Seq<u8> {
    repo_head(PREFIX_TAG_HISTORY, repo) + encode_utf8(tag) + seq![0u8] + instant_bytes(millis)
        + digest.encoded()
}

pub open spec fn manifest_tag_history_key(
    repo: RepoId,
    digest: Digest,
    millis: nat,
    tag: Seq<char>,
) -> Seq<u8> {
    digest_key(PREFIX_MANIFEST_TAG_HISTORY, repo, digest) + instant_bytes(millis) + encode_utf8(tag)
}

/// Append the last `n` bytes of `v`, most significant first.
fn push_be(k: &mut Vec<u8>, v: u64, n: u8)
    ensures
        final(k)@ == old(k)@ + be_bytes(v as nat, n as nat),
    decreases n,
{
    if n > 0 {
        push_be(k, v / 256, n - 1);
        k.push((v % 256) as u8);
    }
    assert(k@ =~= old(k)@ + be_bytes(v as nat, n as nat));
}

/// `H <repo> <tag> NUL <instant> <digest>` -> `TagEvent`, newest first.
pub fn tag_history(repo: RepoId, name: &str, at: Timestamp, digest: &Digest) -> (r: Vec<u8>)
    ensures
        r@ == tag_history_key(repo, name@, at@, *digest),
{
    let mut k = start_repo(PREFIX_TAG_HISTORY, repo);
    append_bytes(&mut k, name.as_bytes());
    k.push(0);
    assert(k@ =~= repo_head(PREFIX_TAG_HISTORY, repo) + encode_utf8(name@) + seq![0u8]);
    push_be(&mut k, u64::MAX - at.millis(), 8);
    digest.encode_into(&mut k);
    k
}

/// `J <repo> <digest> <instant> <tag>` -> `TagEvent`, newest first.
pub fn manifest_tag_history(repo: RepoId, digest: &Digest, at: Timestamp, name: &str) -> (r: Vec<
    u8,
>)
    ensures
        r@ == manifest_tag_history_key(repo, *digest, at@, name@),
{
    let mut k = repo_digest(PREFIX_MANIFEST_TAG_HISTORY, repo, digest);
    push_be(&mut k, u64::MAX - at.millis(), 8);
    append_bytes(&mut k, name.as_bytes());
    k
}

// --- counters --------------------------------------------------------------

/// `A m <repo> <digest>`
pub open spec fn counters_of_manifest_key(repo: RepoId, digest: Digest) -> Seq<u8> {
    seq![PREFIX_COUNTER, SCOPE_MANIFEST] + repo_bytes(repo) + digest.encoded()
}

/// `A t <repo> <tag> NUL`
pub open spec fn counters_of_tag_key(repo: RepoId, tag: Seq<char>) -> Seq<u8> {
    seq![PREFIX_COUNTER, SCOPE_TAG] + repo_bytes(repo) + encode_utf8(tag) + seq![0u8]
}

/// `A r <repo>`
pub open spec fn counters_of_repo_key(repo: RepoId) -> Seq<u8> {
    seq![PREFIX_COUNTER, SCOPE_REPO] + repo_bytes(repo)
}

/// One day's bucket, as one node writes it, in a group of counters.
pub open spec fn counter_key(group: Seq<u8>, day: u16, shard: u16) -> Seq<u8> {
    group + u16_bytes(day) + u16_bytes(shard)
}

/// A key behind every bucket of the days before `day` and before every bucket of
/// `day`.
pub open spec fn counters_from_day_key(group: Seq<u8>, day: u16) -> Seq<u8> {
    if day == 0 {
        group
    } else {
        counter_key(group, (day - 1) as u16, 0xffff)
    }
}

/// The day and shard of a bucket's key, where it is one of the group's.
pub open spec fn counter_suffix_of(key: Seq<u8>, group: Seq<u8>) -> Option<(u16, u16)> {
    let n = group.len() as int;
    if has_prefix(key, group) && key.len() == n + 4 {
        Some(((key[n] * 256 + key[n + 1]) as u16, (key[n + 2] * 256 + key[n + 3]) as u16))
    } else {
        None
    }
}

fn start_counter(scope: u8, repo: RepoId) -> (r: Vec<u8>)
    ensures
        r@ == seq![PREFIX_COUNTER, scope] + repo_bytes(repo),
{
    let mut k = start(PREFIX_COUNTER);
    k.push(scope);
    assert(k@ =~= seq![PREFIX_COUNTER, scope]);
    push_repo(&mut k, repo);
    k
}

fn push_u16(k: &mut Vec<u8>, n: u16)
    ensures
        final(k)@ == old(k)@ + u16_bytes(n),
{
    k.push((n / 256) as u8);
    k.push((n % 256) as u8);
    assert(k@ =~= old(k)@ + u16_bytes(n));
}

/// A bucket's key in a group of counters.
pub fn counter(group: &[u8], day: u16, shard: u16) -> (r: Vec<u8>)
    ensures
        r@ == counter_key(group@, day, shard),
{
    let mut k = vstd::slice::slice_to_vec(group);
    push_u16(&mut k, day);
    push_u16(&mut k, shard);
    k
}

/// Scan prefix over one manifest's buckets, oldest first.
pub fn counters_of_manifest(repo: RepoId, digest: &Digest) -> (r: Vec<u8>)
    ensures
        r@ == counters_of_manifest_key(repo, *digest),
{
    let mut k = start_counter(SCOPE_MANIFEST, repo);
    digest.encode_into(&mut k);
    k
}

/// Scan prefix over one tag's buckets, oldest first. The terminator keeps one
/// tag's scan out of the tags that its name begins.
pub fn counters_of_tag(repo: RepoId, name: &str) -> (r: Vec<u8>)
    ensures
        r@ == counters_of_tag_key(repo, name@),
{
    let mut k = start_counter(SCOPE_TAG, repo);
    append_bytes(&mut k, name.as_bytes());
    k.push(0);
    assert(k@ =~= counters_of_tag_key(repo, name@));
    k
}

/// Scan prefix over one repo's buckets, oldest first.
pub fn counters_of_repo(repo: RepoId) -> (r: Vec<u8>)
    ensures
        r@ == counters_of_repo_key(repo),
{
    start_counter(SCOPE_REPO, repo)
}

/// The cursor from which a scan of a group begins with `day`.
pub fn counters_from_day(group: &[u8], day: u16) -> (r: Vec<u8>)
    ensures
        r@ == counters_from_day_key(group@, day),
{
    if day == 0 {
        vstd::slice::slice_to_vec(group)
    } else {
        counter(group, day - 1, 0xffff)
    }
}

/// The day and shard of a bucket's key.
pub fn counter_suffix(key: &[u8], group: &[u8]) -> (r: Option<(u16, u16)>)
    ensures
        r == counter_suffix_of(key@, group@),
{
    let n: usize = group.len();
    if !starts_with(key, group) || key.len() - n != 4 {
        return None;
    }
    Some(
        (
            key[n] as u16 * 256 + key[n + 1] as u16,
            key[n + 2] as u16 * 256 + key[n + 3] as u16,
        ),
    )
}

/// The day that an instant, in unix seconds, falls on.
pub fn day_bucket(secs: u64) -> (r: u16)
    ensures
        r == if secs / 86_400 > u16::MAX {
            u16::MAX as int
        } else {
            (secs / 86_400) as int
        },
{
    let day: u64 = secs / 86_400;
    if day > 65_535 {
        u16::MAX
    } else {
        day as u16
    }
}

/// The hour of its day that an instant, in unix seconds, falls in.
pub fn hour_of_day(secs: u64) -> (r: usize)
    ensures
        r == secs % 86_400 / 3_600,
        r < 24,
{
    (secs % 86_400 / 3_600) as usize
}

/// A bucket's key gives back its day and shard.
pub proof fn counter_suffix_reads_the_key(group: Seq<u8>, day: u16, shard: u16)
    ensures
        counter_suffix_of(counter_key(group, day, shard), group) == Some((day, shard)),
{
    let key = counter_key(group, day, shard);
    assert(key =~= group + (u16_bytes(day) + u16_bytes(shard)));
    lemma_has_prefix_concat(group, u16_bytes(day) + u16_bytes(shard));
    let n = group.len() as int;
    assert(key[n] == day / 256 && key[n + 1] == day % 256);
    assert(key[n + 2] == shard / 256 && key[n + 3] == shard % 256);
}

/// A window's cursor stands before the buckets of its first day and of every
/// later one, and not before those of an earlier day.
pub proof fn counters_from_day_starts_the_window(group: Seq<u8>, from: u16, day: u16, shard: u16)
    ensures
        lex_lt(counters_from_day_key(group, from), counter_key(group, day, shard)) == (day >= from),
{
    reveal_with_fuel(lex_lt, 5);
    let tail = u16_bytes(day) + u16_bytes(shard);
    assert(counter_key(group, day, shard) =~= group + tail);
    if from == 0 {
        assert(group =~= group + Seq::<u8>::empty());
        lex_common_head(group, Seq::<u8>::empty(), tail);
    } else {
        let prior = u16_bytes((from - 1) as u16) + u16_bytes(0xffff);
        assert(counters_from_day_key(group, from) =~= group + prior);
        lex_common_head(group, prior, tail);
        let (a, b) = (prior, tail);
        assert(a[0] == (from - 1) / 256 && a[1] == (from - 1) % 256 && a[2] == 255 && a[3] == 255);
        assert(b[0] == day / 256 && b[1] == day % 256);
        assert(a.drop_first()[0] == a[1] && b.drop_first()[0] == b[1]);
        assert(a.drop_first().drop_first()[0] == a[2] && b.drop_first().drop_first()[0] == b[2]);
        assert(a.drop_first().drop_first().drop_first()[0] == a[3]
            && b.drop_first().drop_first().drop_first()[0] == b[3]);
    }
}

// --- repo interner -----------------------------------------------------

/// `n <name>` -> id. Ordered by name, so `GET /v2/_catalog` pages by scanning
/// this range with a cursor. The reverse map is id-ordered and must not be used
/// for the catalog.
pub fn repo_by_name(name: &str) -> (r: Vec<u8>)
    ensures
        r@ == repo_name_key(name@),
{
    let mut k = start(PREFIX_REPO_BY_NAME);
    append_bytes(&mut k, name.as_bytes());
    k
}

pub fn repos_by_name() -> (r: Vec<u8>)
    ensures
        r@ == seq![PREFIX_REPO_BY_NAME],
{
    start(PREFIX_REPO_BY_NAME)
}

/// `i <id>` -> name.
pub fn repo_by_id(id: RepoId) -> (r: Vec<u8>)
    ensures
        r@ == repo_head(PREFIX_REPO_BY_ID, id),
{
    start_repo(PREFIX_REPO_BY_ID, id)
}

pub fn parse_repo_name(key: &[u8]) -> (r: Option<&str>)
    ensures
        match r {
            Some(s) => key@.len() >= 1 && key@[0] == PREFIX_REPO_BY_NAME && encode_utf8(s@)
                == after(key@, 1),
            None => key@.len() < 1 || key@[0] != PREFIX_REPO_BY_NAME || !valid_utf8(after(key@, 1)),
        },
{
    if key.len() == 0 || key[0] != PREFIX_REPO_BY_NAME {
        return None;
    }
    text_after(key, 1)
}

proof fn lemma_last_byte(upper: int, low: int)
    requires
        0 <= low < 256,
    ensures
        (upper * 256 + low) / 256 == upper,
        (upper * 256 + low) % 256 == low,
{
}

/// The repo id that four bytes write.
pub open spec fn repo_of_bytes(b: Seq<u8>) -> Option<RepoId> {
    if b.len() == 4 {
        Some((((b[0] * 256 + b[1]) * 256 + b[2]) * 256 + b[3]) as RepoId)
    } else {
        None
    }
}

/// Four bytes and the repo id they write determine each other.
pub proof fn repo_bytes_round_trip(id: RepoId)
    ensures
        repo_of_bytes(repo_bytes(id)) == Some(id),
{
    let b = repo_bytes(id);
    assert(b[0] as int * 256 + b[1] == id / 256 / 256);
    assert((b[0] as int * 256 + b[1]) * 256 + b[2] == id / 256);
}

/// The repo id that four bytes write.
pub fn parse_repo_id(value: &[u8]) -> (r: Option<RepoId>)
    ensures
        r == repo_of_bytes(value@),
        r matches Some(id) ==> value@ == repo_bytes(id),
{
    if value.len() != REPO_LEN {
        return None;
    }
    let high: u32 = value[0] as u32 * 256 + value[1] as u32;
    let upper: u32 = high * 256 + value[2] as u32;
    let id: u32 = upper * 256 + value[3] as u32;
    proof {
        lemma_last_byte(upper as int, value[3] as int);
        lemma_last_byte(high as int, value[2] as int);
        lemma_last_byte(value[0] as int, value[1] as int);
    }
    assert(value@ =~= repo_bytes(id));
    Some(id)
}

// --- laws ---------------------------------------------------------------

/// A repo id is known by its four bytes.
pub proof fn repo_bytes_injective(a: RepoId, b: RepoId)
    requires
        repo_bytes(a) == repo_bytes(b),
    ensures
        a == b,
{
    assert(repo_bytes(a)[0] == repo_bytes(b)[0]);
    assert(repo_bytes(a)[1] == repo_bytes(b)[1]);
    assert(repo_bytes(a)[2] == repo_bytes(b)[2]);
    assert(repo_bytes(a)[3] == repo_bytes(b)[3]);
    assert(a / 256 / 256 == b / 256 / 256);
    assert(a / 256 == b / 256);
}

/// A key under one repo's head is not under another's: a repo's scan never
/// reaches its neighbour.
pub proof fn repo_scans_are_disjoint(prefix: u8, a: RepoId, b: RepoId, key: Seq<u8>)
    requires
        has_prefix(key, repo_head(prefix, a)),
        has_prefix(key, repo_head(prefix, b)),
    ensures
        a == b,
{
    assert(repo_head(prefix, a) == repo_head(prefix, b));
    assert(repo_bytes(a) =~= after(repo_head(prefix, a), 1));
    assert(repo_bytes(b) =~= after(repo_head(prefix, b), 1));
    repo_bytes_injective(a, b);
}

/// Keys of two kinds never share a scan: the first byte tells them apart.
pub proof fn kinds_are_disjoint(a: u8, b: u8, key: Seq<u8>)
    requires
        has_prefix(key, seq![a]),
        has_prefix(key, seq![b]),
    ensures
        a == b,
{
    assert(seq![a][0] == seq![b][0]);
}

/// Every repo-scoped key stands under its repo's head, and what follows it is
/// the rest of the key.
pub proof fn digest_keys_are_under_their_repo(prefix: u8, repo: RepoId, d: Digest)
    ensures
        has_prefix(digest_key(prefix, repo, d), repo_head(prefix, repo)),
        after(digest_key(prefix, repo, d), 5) == d.encoded(),
        has_prefix(digest_key(prefix, repo, d), seq![prefix]),
{
    lemma_has_prefix_concat(repo_head(prefix, repo), d.encoded());
    assert(digest_key(prefix, repo, d).subrange(0, 1) =~= seq![prefix]);
}

/// A tag's keys stand under the scans that list them.
pub proof fn tags_are_under_their_scans(repo: RepoId, d: Digest, tag: Seq<char>)
    ensures
        has_prefix(tag_key(repo, tag), repo_head(PREFIX_TAG, repo)),
        after(tag_key(repo, tag), 5) == encode_utf8(tag),
        has_prefix(manifest_tag_key(repo, d, tag), digest_key(PREFIX_MANIFEST_TAG, repo, d)),
        after(manifest_tag_key(repo, d, tag), 5 + d.encoded().len() as int) == encode_utf8(tag),
{
    lemma_has_prefix_concat(repo_head(PREFIX_TAG, repo), encode_utf8(tag));
    lemma_has_prefix_concat(digest_key(PREFIX_MANIFEST_TAG, repo, d), encode_utf8(tag));
}

/// A reference edge stands under its blob's scan and under its blob's scan in
/// its repo.
pub proof fn blob_refs_are_under_their_scans(blob: Digest, repo: RepoId, manifest: Digest)
    ensures
        has_prefix(blob_ref_key(blob, repo, manifest), blob_refs_key(blob)),
        has_prefix(blob_ref_key(blob, repo, manifest), blob_refs_in_repo_key(blob, repo)),
{
    lemma_has_prefix_concat(blob_refs_in_repo_key(blob, repo), manifest.encoded());
    assert(blob_ref_key(blob, repo, manifest) =~= blob_refs_key(blob) + (repo_bytes(repo)
        + manifest.encoded()));
    lemma_has_prefix_concat(blob_refs_key(blob), repo_bytes(repo) + manifest.encoded());
}

/// Scans of two blobs' references share no key.
pub proof fn blob_scans_are_disjoint(x: Digest, y: Digest, key: Seq<u8>)
    requires
        has_prefix(key, blob_refs_key(x)),
        has_prefix(key, blob_refs_key(y)),
    ensures
        x == y,
{
    let tail = after(key, 1);
    let (p, q) = (blob_refs_key(x), blob_refs_key(y));
    assert(tail.subrange(0, x.encoded().len() as int) =~= after(p, 1));
    assert(after(p, 1) =~= x.encoded());
    assert(tail.subrange(0, y.encoded().len() as int) =~= after(q, 1));
    assert(after(q, 1) =~= y.encoded());
    encoded_digest_is_self_delimiting(tail, x, y);
}

/// Scans of a blob's references inside a repo share no key unless both the blob
/// and the repo are the same: one repo's references are never another's.
pub proof fn blob_scans_in_repos_are_disjoint(
    x: Digest,
    a: RepoId,
    y: Digest,
    b: RepoId,
    key: Seq<u8>,
)
    requires
        has_prefix(key, blob_refs_in_repo_key(x, a)),
        has_prefix(key, blob_refs_in_repo_key(y, b)),
    ensures
        x == y,
        a == b,
{
    let (p, q) = (blob_refs_in_repo_key(x, a), blob_refs_in_repo_key(y, b));
    lemma_has_prefix_concat(blob_refs_key(x), repo_bytes(a));
    lemma_has_prefix_concat(blob_refs_key(y), repo_bytes(b));
    lemma_prefix_chain(key, blob_refs_key(x), p);
    lemma_prefix_chain(key, blob_refs_key(y), q);
    blob_scans_are_disjoint(x, y, key);
    assert(p == q);
    repo_bytes_injective(a, b);
}

/// An edge between digests stands under the scan of the digest it starts from.
pub proof fn edges_are_under_their_scans(prefix: u8, repo: RepoId, from: Digest, to: Digest)
    ensures
        has_prefix(edge_key(prefix, repo, from, to), digest_key(prefix, repo, from)),
        after(edge_key(prefix, repo, from, to), 5 + from.encoded().len() as int) == to.encoded(),
{
    lemma_has_prefix_concat(digest_key(prefix, repo, from), to.encoded());
}

/// Scans under two digests of one repo share no key.
pub proof fn digest_scans_are_disjoint(
    prefix: u8,
    a: RepoId,
    x: Digest,
    b: RepoId,
    y: Digest,
    key: Seq<u8>,
)
    requires
        has_prefix(key, digest_key(prefix, a, x)),
        has_prefix(key, digest_key(prefix, b, y)),
    ensures
        a == b,
        x == y,
{
    let (p, q) = (digest_key(prefix, a, x), digest_key(prefix, b, y));
    assert(key.subrange(0, 5) =~= repo_head(prefix, a)) by {
        assert(p.subrange(0, 5) =~= repo_head(prefix, a));
        assert(key.subrange(0, 5) =~= p.subrange(0, 5));
    }
    assert(key.subrange(0, 5) =~= repo_head(prefix, b)) by {
        assert(q.subrange(0, 5) =~= repo_head(prefix, b));
        assert(key.subrange(0, 5) =~= q.subrange(0, 5));
    }
    repo_scans_are_disjoint(prefix, a, b, key);
    let tail = after(key, 5);
    assert(tail.subrange(0, x.encoded().len() as int) =~= after(p, 5));
    assert(after(p, 5) =~= x.encoded());
    assert(tail.subrange(0, y.encoded().len() as int) =~= after(q, 5));
    assert(after(q, 5) =~= y.encoded());
    encoded_digest_is_self_delimiting(tail, x, y);
}

/// Tags of a repo sort by their names.
pub proof fn tags_sort_by_name(repo: RepoId, a: Seq<char>, b: Seq<char>)
    ensures
        lex_lt(tag_key(repo, a), tag_key(repo, b)) == lex_lt(encode_utf8(a), encode_utf8(b)),
{
    lex_common_head(repo_head(PREFIX_TAG, repo), encode_utf8(a), encode_utf8(b));
}

/// Repositories sort by their names.
pub proof fn repos_sort_by_name(a: Seq<char>, b: Seq<char>)
    ensures
        lex_lt(repo_name_key(a), repo_name_key(b)) == lex_lt(encode_utf8(a), encode_utf8(b)),
{
    lex_common_head(seq![PREFIX_REPO_BY_NAME], encode_utf8(a), encode_utf8(b));
}

/// A repo's digest-scoped keys sort by the digests' encodings.
pub proof fn digest_keys_sort_by_digest(prefix: u8, repo: RepoId, a: Digest, b: Digest)
    ensures
        lex_lt(digest_key(prefix, repo, a), digest_key(prefix, repo, b)) == lex_lt(
            a.encoded(),
            b.encoded(),
        ),
{
    lex_common_head(repo_head(prefix, repo), a.encoded(), b.encoded());
}

/// Different tags of a repo have different keys.
pub proof fn tag_key_injective(a: RepoId, x: Seq<char>, b: RepoId, y: Seq<char>)
    requires
        tag_key(a, x) == tag_key(b, y),
    ensures
        a == b,
        x == y,
{
    lemma_has_prefix_concat(repo_head(PREFIX_TAG, a), encode_utf8(x));
    lemma_has_prefix_concat(repo_head(PREFIX_TAG, b), encode_utf8(y));
    repo_scans_are_disjoint(PREFIX_TAG, a, b, tag_key(a, x));
    encode_utf8_decode_utf8(x);
    encode_utf8_decode_utf8(y);
}

/// Different repository names have different keys.
pub proof fn repo_name_key_injective(x: Seq<char>, y: Seq<char>)
    requires
        repo_name_key(x) == repo_name_key(y),
    ensures
        x == y,
{
    lemma_has_prefix_concat(seq![PREFIX_REPO_BY_NAME], encode_utf8(x));
    lemma_has_prefix_concat(seq![PREFIX_REPO_BY_NAME], encode_utf8(y));
    encode_utf8_decode_utf8(x);
    encode_utf8_decode_utf8(y);
}

} // verus!
