//! A registry in memory.
//!
//! It is deliberately the *simplest* registry that is semantically correct, whole
//! blobs in memory and fan-in as a scan, because its job is to pin the behaviour
//! down, not to store much. What it keeps, every registry must keep:
//!
//! - Blob membership is **per repository**. A blob present in one repository is not
//!   servable from another until it is mounted or pushed there.
//! - Deleting a manifest by digest **cascades to every tag** pointing at it;
//!   deleting a tag leaves the manifest reachable by digest.
//! - Manifest bytes are stored and returned **byte-exact**.
//! - A `subject` naming a manifest that does not exist is **accepted**, and the
//!   referrer is listed.
//! - Deletes are visible immediately, not eventually.
use vstd::prelude::*;
use vstd::utf8::*;

use crate::bytes::{append_bytes, bytes_lt, lex_irreflexive, lex_lt};
use crate::digest::Digest;
use crate::server::manifest_json::{description_of, read_manifest, Described, Description};
use crate::server::range::ByteRange;
use crate::server::reference::{Reference, Referred};
use crate::server::seam::{
    body_objection, optional_digest, optional_text, BlobRead, Descriptor, Event, ManifestPut,
    ManifestStat, OpsError, OpsResult, Page, Referrers, Registry, UploadBody,
};
use crate::storage::algorithm::DigestAlgorithm;
use crate::storage::hasher::{capacity, digest_of, digests_of_content_agree, is_digest_of};
use crate::storage::store::same_digest;
use crate::table::{ascending, lists, Key, Table};
use crate::text::str_eq;

verus! {

// --- what is kept --------------------------------------------------------------

#[derive(Debug)]
struct StoredManifest {
    media_type: String,
    body: Vec<u8>,
    described: Described,
}

/// A manifest as it was pushed, and what it says of itself.
pub struct ManifestModel {
    pub media_type: Seq<char>,
    pub body: Seq<u8>,
    pub described: Description,
}

impl View for StoredManifest {
    type V = ManifestModel;

    closed spec fn view(&self) -> ManifestModel {
        ManifestModel {
            media_type: self.media_type@,
            body: self.body@,
            described: self.described@,
        }
    }
}

#[derive(Debug)]
struct Repo {
    tags: Table<String, Digest>,
    manifests: Table<Digest, StoredManifest>,
    blobs: Table<Digest, Vec<u8>>,
}

/// What a repository holds.
pub struct RepoModel {
    pub tags: Map<Seq<char>, Digest>,
    pub manifests: Map<Digest, ManifestModel>,
    pub blobs: Map<Digest, Seq<u8>>,
}

impl View for Repo {
    type V = RepoModel;

    closed spec fn view(&self) -> RepoModel {
        RepoModel { tags: self.tags@, manifests: self.manifests@, blobs: self.blobs@ }
    }
}

impl RepoModel {
    /// A repository that nothing was pushed to.
    pub open spec fn empty() -> RepoModel {
        RepoModel { tags: Map::empty(), manifests: Map::empty(), blobs: Map::empty() }
    }

    /// The digest that a reference names here.
    pub open spec fn resolve(self, reference: Referred) -> Option<Digest> {
        match reference {
            Referred::Digest(d) => if self.manifests.contains_key(d) {
                Some(d)
            } else {
                None
            },
            Referred::Tag(t) => if self.tags.contains_key(t) {
                Some(self.tags[t])
            } else {
                None
            },
        }
    }

    /// The digest and the manifest that a reference leads to here.
    pub open spec fn lookup(self, reference: Referred) -> Option<(Digest, ManifestModel)> {
        match self.resolve(reference) {
            Some(d) => if self.manifests.contains_key(d) {
                Some((d, self.manifests[d]))
            } else {
                None
            },
            None => None,
        }
    }

    pub open spec fn with_blob(self, digest: Digest, bytes: Seq<u8>) -> RepoModel {
        RepoModel { blobs: self.blobs.insert(digest, bytes), ..self }
    }

    pub open spec fn with_manifest(self, digest: Digest, m: ManifestModel) -> RepoModel {
        RepoModel { manifests: self.manifests.insert(digest, m), ..self }
    }

    pub open spec fn with_tag(self, tag: Seq<char>, digest: Digest) -> RepoModel {
        RepoModel { tags: self.tags.insert(tag, digest), ..self }
    }

    pub open spec fn with_tags(self, tags: Seq<Seq<char>>, digest: Digest) -> RepoModel
        decreases tags.len(),
    {
        if tags.len() == 0 {
            self
        } else {
            self.with_tags(tags.drop_last(), digest).with_tag(tags.last(), digest)
        }
    }

    /// The repository without a manifest and without the tags that point at it.
    pub open spec fn without_manifest(self, digest: Digest) -> RepoModel {
        RepoModel {
            tags: Map::new(
                |t: Seq<char>| self.tags.contains_key(t) && self.tags[t] != digest,
                |t: Seq<char>| self.tags[t],
            ),
            manifests: self.manifests.remove(digest),
            ..self
        }
    }
}

#[derive(Debug)]
struct Session {
    repo: String,
    algorithm: String,
    buffer: Vec<u8>,
}

/// An upload under way.
pub struct SessionModel {
    pub repo: Seq<char>,
    pub algorithm: Seq<char>,
    pub buffer: Seq<u8>,
}

impl View for Session {
    type V = SessionModel;

    closed spec fn view(&self) -> SessionModel {
        SessionModel { repo: self.repo@, algorithm: self.algorithm@, buffer: self.buffer@ }
    }
}

/// What a registry holds.
pub struct Holdings {
    pub repos: Map<Seq<char>, RepoModel>,
    pub uploads: Map<Seq<char>, SessionModel>,
}

impl Holdings {
    /// A repository, which a push creates.
    pub open spec fn repo_or_new(self, name: Seq<char>) -> RepoModel {
        if self.repos.contains_key(name) {
            self.repos[name]
        } else {
            RepoModel::empty()
        }
    }

    pub open spec fn with_repo(self, name: Seq<char>, repo: RepoModel) -> Holdings {
        Holdings { repos: self.repos.insert(name, repo), ..self }
    }

    pub open spec fn with_upload(self, id: Seq<char>, session: SessionModel) -> Holdings {
        Holdings { uploads: self.uploads.insert(id, session), ..self }
    }

    pub open spec fn without_upload(self, id: Seq<char>) -> Holdings {
        Holdings { uploads: self.uploads.remove(id), ..self }
    }

    /// Whether a repository serves a blob.
    pub open spec fn serves(self, name: Seq<char>, digest: Digest) -> bool {
        self.repos.contains_key(name) && self.repos[name].blobs.contains_key(digest)
    }

    /// Whether a repository has an upload under way.
    pub open spec fn has_upload(self, name: Seq<char>, id: Seq<char>) -> bool {
        self.uploads.contains_key(id) && self.uploads[id].repo == name
    }

    /// The first repository, by name, that serves a blob.
    pub open spec fn is_first_holder(self, name: Seq<char>, digest: Digest) -> bool {
        self.serves(name, digest) && forall|other: Seq<char>| #[trigger]
            self.serves(other, digest) ==> other == name || lex_lt(
                encode_utf8(name),
                encode_utf8(other),
            )
    }
}

/// A registry in memory.
pub struct MemoryRegistry {
    repos: Table<String, Repo>,
    uploads: Table<String, Session>,
    asked: Ghost<Seq<Event<Vec<u8>, Vec<u8>>>>,
}

impl View for MemoryRegistry {
    type V = Holdings;

    closed spec fn view(&self) -> Holdings {
        Holdings { repos: self.repos@, uploads: self.uploads@ }
    }
}

// --- digests -------------------------------------------------------------------

/// The algorithm of a digest.
pub open spec fn algorithm_of(d: Digest) -> DigestAlgorithm {
    if d is Sha256 {
        DigestAlgorithm::Sha256
    } else {
        DigestAlgorithm::Sha512
    }
}

/// Whether content can be hashed, and hashes to a digest.
pub open spec fn verifies(d: Digest, content: Seq<u8>) -> bool {
    content.len() <= capacity(algorithm_of(d)) && is_digest_of(d, content)
}

/// The SHA-256 digest of some content.
pub open spec fn sha256_of(content: Seq<u8>) -> Digest {
    choose|d: Digest| d is Sha256 && is_digest_of(d, content)
}

proof fn lemma_sha256_of(d: Digest, content: Seq<u8>)
    requires
        d is Sha256,
        is_digest_of(d, content),
    ensures
        sha256_of(content) == d,
{
    digests_of_content_agree(sha256_of(content), d, content);
}

/// The SHA-256 digest of some content, if there is not too much of it.
fn sha256(content: &[u8]) -> (r: Option<Digest>)
    ensures
        match r {
            Some(d) => d is Sha256 && verifies(d, content@) && d == sha256_of(content@),
            None => content@.len() > capacity(DigestAlgorithm::Sha256),
        },
{
    match digest_of(DigestAlgorithm::Sha256, content) {
        Some(d) => {
            proof {
                lemma_sha256_of(d, content@);
            }
            Some(d)
        },
        None => None,
    }
}

/// Hash under the algorithm of the digest that the client named, and compare.
/// Content is never rehashed under another algorithm.
fn hashes_to(content: &[u8], claimed: &Digest) -> (r: bool)
    ensures
        r == verifies(*claimed, content@),
{
    let algorithm = match claimed {
        Digest::Sha256(_) => DigestAlgorithm::Sha256,
        Digest::Sha512(_) => DigestAlgorithm::Sha512,
    };
    match digest_of(algorithm, content) {
        Some(actual) => {
            proof {
                if is_digest_of(*claimed, content@) {
                    digests_of_content_agree(actual, *claimed, content@);
                }
            }
            same_digest(&actual, claimed)
        },
        None => false,
    }
}

// --- pages ---------------------------------------------------------------------

/// Whether a text sorts after a cursor.
pub open spec fn is_after(last: Option<Seq<char>>, s: Seq<char>) -> bool {
    last matches Some(l) ==> lex_lt(encode_utf8(l), encode_utf8(s))
}

/// What sorts after a cursor, in the given order.
pub open spec fn rest_after(all: Seq<Seq<char>>, last: Option<Seq<char>>) -> Seq<Seq<char>> {
    all.filter(|s: Seq<char>| is_after(last, s))
}

/// At most so many, from the front.
pub open spec fn at_most<T>(s: Seq<T>, limit: nat) -> Seq<T> {
    if s.len() <= limit {
        s
    } else {
        s.subrange(0, limit as int)
    }
}

/// Whether a page is the one after a cursor, and says truly if there is more.
pub open spec fn is_page(
    page: Page<String>,
    all: Seq<Seq<char>>,
    last: Option<Seq<char>>,
    limit: nat,
) -> bool {
    &&& page.items.deep_view() == at_most(rest_after(all, last), limit)
    &&& page.more == (rest_after(all, last).len() > limit)
}

/// What an optional borrowed string is.
pub open spec fn optional_string(s: Option<&String>) -> Option<Seq<char>> {
    match s {
        Some(t) => Some(t@),
        None => None,
    }
}

proof fn lemma_rest_grows(all: Seq<Seq<char>>, last: Option<Seq<char>>, i: int)
    requires
        0 <= i < all.len(),
    ensures
        rest_after(all.subrange(0, i + 1), last) == if is_after(last, all[i]) {
            rest_after(all.subrange(0, i), last).push(all[i])
        } else {
            rest_after(all.subrange(0, i), last)
        },
{
    reveal(Seq::filter);
    assert(all.subrange(0, i + 1).drop_last() =~= all.subrange(0, i));
}

/// One page of a list, with `more` decided by peeking one past the limit rather
/// than by "the page came back full".
pub fn paginate(all: &[String], last: Option<&String>, limit: usize) -> (r: Page<String>)
    ensures
        is_page(r, all.deep_view(), optional_string(last), limit as nat),
{
    let mut items: Vec<String> = Vec::new();
    let ghost texts = all.deep_view();
    let ghost after = optional_string(last);
    let mut i: usize = 0;
    let mut more = false;
    reveal(Seq::filter);
    assert(texts.subrange(0, 0) =~= Seq::empty());
    assert(items.deep_view() =~= Seq::empty());
    while i < all.len() && !more
        invariant
            i <= all@.len(),
            texts == all.deep_view(),
            after == optional_string(last),
            items@.len() <= limit,
            !more ==> items.deep_view() == rest_after(texts.subrange(0, i as int), after),
            more ==> ({
                let rest = rest_after(texts.subrange(0, i as int), after);
                &&& rest.len() == limit + 1
                &&& items.deep_view() == rest.subrange(0, limit as int)
            }),
        decreases all@.len() - i,
    {
        let wanted = match last {
            Some(l) => bytes_lt(l.as_str().as_bytes(), all[i].as_str().as_bytes()),
            None => true,
        };
        proof {
            lemma_rest_grows(texts, after, i as int);
        }
        if wanted {
            if items.len() == limit {
                more = true;
                proof {
                    let was = rest_after(texts.subrange(0, i as int), after);
                    assert(was.push(texts[i as int]).subrange(0, limit as int) =~= was);
                }
            } else {
                items.push(all[i].as_str().to_owned());
                assert(items.deep_view() =~= rest_after(texts.subrange(0, i + 1), after));
            }
        }
        i = i + 1;
    }
    proof {
        if more {
            lemma_rest_prefix(texts, after, i as int);
            let rest = rest_after(texts, after);
            let some = rest_after(texts.subrange(0, i as int), after);
            assert(rest.subrange(0, limit as int) =~= some.subrange(0, limit as int));
        } else {
            assert(texts.subrange(0, i as int) =~= texts);
        }
    }
    Page { items, more }
}

/// What follows in a front part follows in the whole, at the same place.
proof fn lemma_rest_prefix(all: Seq<Seq<char>>, last: Option<Seq<char>>, i: int)
    requires
        0 <= i <= all.len(),
    ensures
        rest_after(all.subrange(0, i), last).is_prefix_of(rest_after(all, last)),
    decreases all.len() - i,
{
    if i < all.len() {
        lemma_rest_grows(all, last, i);
        lemma_rest_prefix(all, last, i + 1);
        let a = rest_after(all.subrange(0, i), last);
        let b = rest_after(all.subrange(0, i + 1), last);
        assert(a.is_prefix_of(b));
    } else {
        assert(all.subrange(0, i) =~= all);
    }
}

/// Whether a page lists keys of a map, in byte order.
pub open spec fn pages_keys<V>(
    page: Page<String>,
    map: Map<Seq<char>, V>,
    last: Option<Seq<char>>,
    limit: nat,
) -> bool {
    exists|all: Seq<Seq<char>>| #[trigger]
        ascending::<String>(all) && lists(all, map) && is_page(page, all, last, limit)
}

/// There is one order of the keys of a map, so there is one page after a cursor.
pub proof fn a_map_has_one_order<K: Key, V>(a: Seq<K::Model>, b: Seq<K::Model>, map: Map<K::Model, V>)
    requires
        ascending::<K>(a),
        lists(a, map),
        ascending::<K>(b),
        lists(b, map),
    ensures
        a == b,
    decreases a.len(),
{
    if a.len() == 0 {
        if b.len() > 0 {
            assert(map.contains_key(b[0]));
            assert(a.contains(b[0]));
        }
        assert(a =~= b);
    } else {
        assert(map.contains_key(a[0]));
        assert(b.contains(a[0]));
        lemma_first_agrees::<K, V>(a, b, map);
        let (x, y) = (a.drop_first(), b.drop_first());
        let without = map.remove(a[0]);
        lemma_rest_lists::<K, V>(a, map);
        lemma_rest_lists::<K, V>(b, map);
        a_map_has_one_order::<K, V>(x, y, without);
        assert(a =~= seq![a[0]] + x);
        assert(b =~= seq![b[0]] + y);
    }
}

proof fn lemma_first_agrees<K: Key, V>(a: Seq<K::Model>, b: Seq<K::Model>, map: Map<K::Model, V>)
    requires
        ascending::<K>(a),
        lists(a, map),
        ascending::<K>(b),
        lists(b, map),
        a.len() > 0,
        b.len() > 0,
    ensures
        a[0] == b[0],
{
    assert(map.contains_key(a[0]));
    assert(map.contains_key(b[0]));
    let i = choose|i: int| 0 <= i < b.len() && b[i] == a[0];
    let j = choose|j: int| 0 <= j < a.len() && a[j] == b[0];
    if a[0] != b[0] {
        assert(lex_lt(K::order(b[0]), K::order(b[i])));
        assert(lex_lt(K::order(a[0]), K::order(a[j])));
        crate::bytes::lex_asymmetric(K::order(a[0]), K::order(b[0]));
    }
}

proof fn lemma_rest_lists<K: Key, V>(a: Seq<K::Model>, map: Map<K::Model, V>)
    requires
        ascending::<K>(a),
        lists(a, map),
        a.len() > 0,
    ensures
        ascending::<K>(a.drop_first()),
        lists(a.drop_first(), map.remove(a[0])),
{
    let x = a.drop_first();
    let without = map.remove(a[0]);
    assert forall|i: int, j: int| 0 <= i < j < x.len() implies lex_lt(
        #[trigger] K::order(x[i]),
        #[trigger] K::order(x[j]),
    ) by {
        assert(lex_lt(K::order(a[i + 1]), K::order(a[j + 1])));
    }
    assert forall|i: int| 0 <= i < x.len() implies without.contains_key(#[trigger] x[i]) by {
        assert(lex_lt(K::order(a[0]), K::order(a[i + 1])));
        lex_irreflexive(K::order(a[0]));
        assert(map.contains_key(a[i + 1]));
    }
    assert forall|m: K::Model| #[trigger] without.contains_key(m) implies x.contains(m) by {
        assert(map.contains_key(m));
        let i = choose|i: int| 0 <= i < a.len() && a[i] == m;
        assert(x[i - 1] == m);
    }
}

/// The keys of a table.
fn names<V: View>(table: &Table<String, V>) -> (r: Vec<String>)
    ensures
        ascending::<String>(r.deep_view()),
        lists(r.deep_view(), table@),
{
    let n = table.len();
    let mut out: Vec<String> = Vec::new();
    let mut i: usize = 0;
    while i < n
        invariant
            i <= n,
            n == table.keys().len(),
            out@.len() == i,
            forall|k: int| 0 <= k < i ==> (#[trigger] out@[k])@ == table.keys()[k],
        decreases n - i,
    {
        out.push(table.key_at(i).as_str().to_owned());
        i = i + 1;
    }
    assert(out.deep_view() =~= table.keys());
    out
}

// --- the registry --------------------------------------------------------------

impl Repo {
    fn new() -> (r: Repo)
        ensures
            r@ == RepoModel::empty(),
    {
        Repo { tags: Table::new(), manifests: Table::new(), blobs: Table::new() }
    }

    /// What a reference leads to.
    fn lookup(&self, reference: &Reference) -> (r: Option<(Digest, &StoredManifest)>)
        ensures
            match r {
                Some((d, m)) => self@.lookup(reference.deep_view()) == Some((d, m@)),
                None => self@.lookup(reference.deep_view()) is None,
            },
    {
        let digest = match reference {
            Reference::Digest(d) => *d,
            Reference::Tag(t) => match self.tags.get(t) {
                Some(d) => *d,
                None => return None,
            },
        };
        match self.manifests.get(&digest) {
            Some(m) => Some((digest, m)),
            None => None,
        }
    }
}

/// A copy of some bytes.
fn copied(bytes: &Vec<u8>) -> (r: Vec<u8>)
    ensures
        r@ == bytes@,
{
    vstd::slice::slice_to_vec(bytes.as_slice())
}

/// What `HEAD` on a manifest needs of it.
pub open spec fn is_stat(stat: ManifestStat, digest: Digest, m: ManifestModel) -> bool {
    &&& stat.digest == digest
    &&& stat.media_type@ == m.media_type
    &&& stat.size == m.body.len()
}

fn stat_of(digest: Digest, m: &StoredManifest) -> (r: ManifestStat)
    ensures
        is_stat(r, digest, m@),
{
    ManifestStat {
        digest,
        media_type: m.media_type.as_str().to_owned(),
        size: m.body.len() as u64,
    }
}

impl MemoryRegistry {
    pub fn new() -> (r: MemoryRegistry)
        ensures
            r@.repos == Map::<Seq<char>, RepoModel>::empty(),
            r@.uploads == Map::<Seq<char>, SessionModel>::empty(),
            r.log() == Seq::<Event<Vec<u8>, Vec<u8>>>::empty(),
    {
        MemoryRegistry {
            repos: Table::new(),
            uploads: Table::new(),
            asked: Ghost(Seq::empty()),
        }
    }

    /// Take a repository out, to be put back; a new one where there is none.
    fn take_repo(&mut self, name: &String) -> (r: Repo)
        ensures
            r@ == old(self)@.repo_or_new(name@),
            final(self)@ == (Holdings { repos: old(self)@.repos.remove(name@), ..old(self)@ }),
            final(self).log() == old(self).log(),
    {
        match self.repos.remove(name) {
            Some(repo) => repo,
            None => {
                assert(self.repos@.remove(name@) =~= self.repos@);
                Repo::new()
            },
        }
    }

    /// Put a repository in.
    fn put_repo(&mut self, name: String, repo: Repo)
        ensures
            final(self)@ == old(self)@.with_repo(name@, repo@),
            final(self).log() == old(self).log(),
    {
        self.repos.insert(name, repo);
    }

    /// Put a blob into a repository.
    fn store_blob(&mut self, name: &str, digest: &Digest, bytes: Vec<u8>)
        ensures
            final(self)@ == old(self)@.with_repo(
                name@,
                old(self)@.repo_or_new(name@).with_blob(*digest, bytes@),
            ),
            final(self).log() == old(self).log(),
    {
        let key = name.to_owned();
        let mut repo = self.take_repo(&key);
        repo.blobs.insert(*digest, bytes);
        let ghost now = repo@;
        self.put_repo(key, repo);
        assert(old(self)@.repos.remove(name@).insert(name@, now) =~= old(self)@.repos.insert(
            name@,
            now,
        ));
    }

    /// Seed a blob without going through the upload flow.
    pub fn seed_blob(&mut self, repo: &str, bytes: &[u8]) -> (r: Digest)
        requires
            bytes@.len() <= capacity(DigestAlgorithm::Sha256),
        ensures
            r == sha256_of(bytes@),
            verifies(r, bytes@),
            final(self)@ == old(self)@.with_repo(
                repo@,
                old(self)@.repo_or_new(repo@).with_blob(r, bytes@),
            ),
            final(self).log() == old(self).log(),
    {
        match sha256(bytes) {
            Some(digest) => {
                self.store_blob(repo, &digest, vstd::slice::slice_to_vec(bytes));
                digest
            },
            None => {
                assert(false);
                Digest::Sha256([0u8; 32])
            },
        }
    }

    /// Seed a manifest and optionally tag it.
    pub fn seed_manifest(&mut self, repo: &str, tag: Option<&str>, media_type: &str, body: &[u8]) -> (r:
        Digest)
        requires
            body@.len() <= capacity(DigestAlgorithm::Sha256),
        ensures
            r == sha256_of(body@),
            verifies(r, body@),
            ({
                let m = ManifestModel {
                    media_type: media_type@,
                    body: body@,
                    described: Description {
                        subject: None,
                        artifact_type: None,
                        annotations: Map::empty(),
                    },
                };
                let held = old(self)@.repo_or_new(repo@).with_manifest(r, m);
                final(self)@ == old(self)@.with_repo(
                    repo@,
                    match tag {
                        Some(t) => held.with_tag(t@, r),
                        None => held,
                    },
                )
            }),
            final(self).log() == old(self).log(),
    {
        match sha256(body) {
            Some(digest) => {
                let key = repo.to_owned();
                let mut held = self.take_repo(&key);
                let described = Described {
                    subject: None,
                    artifact_type: None,
                    annotations: Table::new(),
                };
                held.manifests.insert(
                    digest,
                    StoredManifest {
                        media_type: media_type.to_owned(),
                        body: vstd::slice::slice_to_vec(body),
                        described,
                    },
                );
                if let Some(tag) = tag {
                    held.tags.insert(tag.to_owned(), digest);
                }
                let ghost now = held@;
                self.put_repo(key, held);
                assert(old(self)@.repos.remove(repo@).insert(repo@, now)
                    =~= old(self)@.repos.insert(repo@, now));
                digest
            },
            None => {
                assert(false);
                Digest::Sha256([0u8; 32])
            },
        }
    }

    /// Attach a `subject` to an already-seeded manifest.
    pub fn seed_subject(
        &mut self,
        repo: &str,
        digest: &Digest,
        subject: Digest,
        artifact_type: Option<&str>,
    )
        ensures
            final(self)@ == if old(self)@.repos.contains_key(repo@)
                && old(self)@.repos[repo@].manifests.contains_key(*digest) {
                let held = old(self)@.repos[repo@];
                let m = held.manifests[*digest];
                old(self)@.with_repo(
                    repo@,
                    held.with_manifest(
                        *digest,
                        ManifestModel {
                            described: Description {
                                subject: Some(subject),
                                artifact_type: optional_text(artifact_type),
                                ..m.described
                            },
                            ..m
                        },
                    ),
                )
            } else {
                old(self)@
            },
            final(self).log() == old(self).log(),
    {
        let key = repo.to_owned();
        if let Some(mut held) = self.repos.remove(&key) {
            if let Some(mut m) = held.manifests.remove(digest) {
                let artifact_type = match artifact_type {
                    Some(t) => Some(t.to_owned()),
                    None => None,
                };
                let annotations = m.described.annotations;
                m.described = Described { subject: Some(subject), artifact_type, annotations };
                let ghost was = old(self)@.repos[repo@].manifests;
                let ghost now = m@;
                held.manifests.insert(*digest, m);
                assert(was.remove(*digest).insert(*digest, now) =~= was.insert(*digest, now));
            }
            let ghost now = held@;
            self.repos.insert(key, held);
            assert(old(self)@.repos.remove(repo@).insert(repo@, now) =~= old(self)@.repos.insert(
                repo@,
                now,
            ));
            assert(old(self)@.repos.insert(repo@, old(self)@.repos[repo@]) =~= old(self)@.repos);
        }
    }
}

/// What a manifest push leaves behind.
pub open spec fn pushed(
    h: Holdings,
    name: Seq<char>,
    reference: Referred,
    content_type: Seq<char>,
    tags: Seq<Seq<char>>,
    body: Seq<u8>,
    digest: Digest,
) -> Holdings {
    let m = ManifestModel {
        media_type: content_type,
        body,
        described: description_of(body),
    };
    let held = h.repo_or_new(name).with_manifest(digest, m);
    let tagged = match reference {
        Referred::Tag(t) => held.with_tag(t, digest),
        Referred::Digest(_) => held,
    };
    h.with_repo(name, tagged.with_tags(tags, digest))
}

/// The digest that a push is stored under, if the body can be hashed and is what
/// it was claimed to be.
pub open spec fn push_digest(reference: Referred, body: Seq<u8>) -> OpsResult<Digest> {
    match reference {
        Referred::Digest(claimed) => if verifies(claimed, body) {
            Ok(claimed)
        } else {
            Err(OpsError::DigestMismatch)
        },
        Referred::Tag(_) => if body.len() <= capacity(DigestAlgorithm::Sha256) {
            Ok(sha256_of(body))
        } else {
            Err(OpsError::BodyTooLarge { limit: capacity(DigestAlgorithm::Sha256) as u64 })
        },
    }
}

/// The part of a blob that a window covers.
pub open spec fn windowed(bytes: Seq<u8>, window: Option<ByteRange>) -> Seq<u8> {
    match window {
        Some(w) => {
            let start = if w.start <= bytes.len() {
                w.start as int
            } else {
                bytes.len() as int
            };
            let end = if w.end + 1 <= bytes.len() {
                w.end + 1
            } else {
                bytes.len() as int
            };
            bytes.subrange(start, end)
        },
        None => bytes,
    }
}

/// Why an append to an upload is refused.
pub open spec fn append_objection(
    h: Holdings,
    name: Seq<char>,
    id: Seq<char>,
    expected_offset: u64,
    body: UploadBody<Vec<u8>>,
) -> Option<OpsError> {
    match body_objection(body.body@.len(), body.declared, body.limit) {
        Some(e) => Some(e),
        None => if !h.has_upload(name, id) {
            Some(OpsError::UploadUnknown)
        } else if h.uploads[id].buffer.len() != expected_offset {
            Some(OpsError::OffsetMismatch { current: h.uploads[id].buffer.len() as u64 })
        } else {
            None
        },
    }
}

/// Whether a finished upload is what it was claimed to be, under the algorithm
/// that its session was opened with.
pub open spec fn completes(session: SessionModel, chunk: Seq<u8>, digest: Digest) -> bool {
    verifies(digest, session.buffer + chunk) && session.algorithm == digest.algorithm_name()
}

/// Manifests of some digests that refer to a subject, after a cursor.
pub open spec fn edges(
    keys: Seq<Digest>,
    manifests: Map<Digest, ManifestModel>,
    subject: Digest,
    last: Option<Digest>,
) -> Seq<Digest> {
    keys.filter(
        |d: Digest|
            manifests[d].described.subject == Some(subject) && (last matches Some(l) ==> lex_lt(
                l.encoded(),
                d.encoded(),
            )),
    )
}

/// Those of some manifests that are of a type, where one is asked for.
pub open spec fn of_type(
    scanned: Seq<Digest>,
    manifests: Map<Digest, ManifestModel>,
    artifact_type: Option<Seq<char>>,
) -> Seq<Digest> {
    scanned.filter(
        |d: Digest|
            artifact_type matches Some(t) ==> manifests[d].described.artifact_type == Some(t),
    )
}

/// Whether rows are the entries of a map, in the order of their names.
pub open spec fn lists_entries(
    rows: Seq<(Seq<char>, Seq<char>)>,
    map: Map<Seq<char>, Seq<char>>,
) -> bool {
    let names = Seq::new(rows.len(), |i: int| rows[i].0);
    &&& ascending::<String>(names)
    &&& lists(names, map)
    &&& forall|i: int| 0 <= i < rows.len() ==> map[(#[trigger] rows[i]).0] == rows[i].1
}

/// Whether a descriptor describes a manifest.
pub open spec fn describes(d: Descriptor, digest: Digest, m: ManifestModel) -> bool {
    &&& d.digest == digest
    &&& d.media_type@ == m.media_type
    &&& d.size == m.body.len()
    &&& d.artifact_type.deep_view() == m.described.artifact_type
    &&& lists_entries(d.annotations.deep_view(), m.described.annotations)
}

/// Whether a referrers answer is the one for a subject.
pub open spec fn is_referrers(
    r: Referrers,
    manifests: Map<Digest, ManifestModel>,
    subject: Digest,
    artifact_type: Option<Seq<char>>,
    last: Option<Digest>,
    limit: nat,
) -> bool {
    exists|keys: Seq<Digest>|
        {
            let all = edges(keys, manifests, subject, last);
            let scanned = at_most(all, limit);
            let shown = of_type(scanned, manifests, artifact_type);
            &&& #[trigger] ascending::<Digest>(keys)
            &&& lists(keys, manifests)
            &&& r.manifests@.len() == shown.len()
            &&& forall|i: int|
                0 <= i < shown.len() ==> describes(
                    #[trigger] r.manifests@[i],
                    shown[i],
                    manifests[shown[i]],
                )
            &&& r.filter_applied == (artifact_type is Some)
            &&& r.next == if 0 < limit < all.len() {
                Some(scanned.last())
            } else {
                None
            }
        }
}

proof fn lemma_edges_grow(
    keys: Seq<Digest>,
    manifests: Map<Digest, ManifestModel>,
    subject: Digest,
    last: Option<Digest>,
    i: int,
)
    requires
        0 <= i < keys.len(),
    ensures
        edges(keys.subrange(0, i + 1), manifests, subject, last) == if manifests[keys[i]].described.subject
            == Some(subject) && (last matches Some(l) ==> lex_lt(l.encoded(), keys[i].encoded())) {
            edges(keys.subrange(0, i), manifests, subject, last).push(keys[i])
        } else {
            edges(keys.subrange(0, i), manifests, subject, last)
        },
{
    reveal(Seq::filter);
    assert(keys.subrange(0, i + 1).drop_last() =~= keys.subrange(0, i));
}

proof fn lemma_type_grows(
    scanned: Seq<Digest>,
    d: Digest,
    manifests: Map<Digest, ManifestModel>,
    artifact_type: Option<Seq<char>>,
)
    ensures
        of_type(scanned.push(d), manifests, artifact_type) == if artifact_type matches Some(t)
            ==> manifests[d].described.artifact_type == Some(t) {
            of_type(scanned, manifests, artifact_type).push(d)
        } else {
            of_type(scanned, manifests, artifact_type)
        },
{
    reveal(Seq::filter);
    assert(scanned.push(d).drop_last() =~= scanned);
}

/// The entries of a table of texts.
fn entries(table: &Table<String, String>) -> (r: Vec<(String, String)>)
    ensures
        lists_entries(r.deep_view(), table@),
{
    let n = table.len();
    let mut out: Vec<(String, String)> = Vec::new();
    let mut i: usize = 0;
    while i < n
        invariant
            i <= n,
            n == table.keys().len(),
            out@.len() == i,
            forall|k: int|
                0 <= k < i ==> (#[trigger] out@[k]).deep_view() == (
                    table.keys()[k],
                    table@[table.keys()[k]],
                ),
        decreases n - i,
    {
        out.push((table.key_at(i).as_str().to_owned(), table.value_at(i).as_str().to_owned()));
        i = i + 1;
    }
    proof {
        let rows = out.deep_view();
        assert forall|k: int| 0 <= k < rows.len() implies #[trigger] rows[k] == (
            table.keys()[k],
            table@[table.keys()[k]],
        ) by {
            assert(rows[k] == out@[k].deep_view());
        }
        assert(Seq::new(rows.len(), |k: int| rows[k].0) =~= table.keys());
    }
    out
}

fn descriptor_of(digest: &Digest, m: &StoredManifest) -> (r: Descriptor)
    ensures
        describes(r, *digest, m@),
{
    let artifact_type = match &m.described.artifact_type {
        Some(t) => Some(t.as_str().to_owned()),
        None => None,
    };
    Descriptor {
        media_type: m.media_type.as_str().to_owned(),
        digest: *digest,
        size: m.body.len() as u64,
        artifact_type,
        annotations: entries(&m.described.annotations),
    }
}

/// The referrers among some manifests.
fn list_referrers(
    manifests: &Table<Digest, StoredManifest>,
    subject: &Digest,
    artifact_type: Option<&str>,
    last: Option<&Digest>,
    limit: usize,
) -> (r: Referrers)
    ensures
        is_referrers(
            r,
            manifests@,
            *subject,
            optional_text(artifact_type),
            optional_digest(last),
            limit as nat,
        ),
{
    let n = manifests.len();
    let ghost keys = manifests.keys();
    let ghost after = optional_digest(last);
    let ghost wanted = optional_text(artifact_type);
    let mut found: Vec<Descriptor> = Vec::new();
    let mut count: usize = 0;
    let mut reached: Option<Digest> = None;
    let mut i: usize = 0;
    reveal(Seq::filter);
    assert(keys.subrange(0, 0) =~= Seq::empty());
    while i < n
        invariant
            i <= n,
            n == keys.len(),
            keys == manifests.keys(),
            after == optional_digest(last),
            wanted == optional_text(artifact_type),
            count <= i,
            count == edges(keys.subrange(0, i as int), manifests@, *subject, after).len(),
            ({
                let all = edges(keys.subrange(0, i as int), manifests@, *subject, after);
                let scanned = at_most(all, limit as nat);
                let shown = of_type(scanned, manifests@, wanted);
                &&& found@.len() == shown.len()
                &&& forall|k: int|
                    0 <= k < shown.len() ==> describes(
                        #[trigger] found@[k],
                        shown[k],
                        manifests@[shown[k]],
                    )
                &&& scanned.len() > 0 ==> reached == Some(scanned.last())
            }),
        decreases n - i,
    {
        let digest = manifests.key_at(i);
        let m = manifests.value_at(i);
        let ghost was = edges(keys.subrange(0, i as int), manifests@, *subject, after);
        proof {
            lemma_edges_grow(keys, manifests@, *subject, after, i as int);
        }
        let refers = match &m.described.subject {
            Some(s) => same_digest(s, subject),
            None => false,
        };
        let beyond = match last {
            Some(l) => l.before(digest),
            None => true,
        };
        if refers && beyond {
            if count < limit {
                proof {
                    lemma_type_grows(was, *digest, manifests@, wanted);
                }
                let typed = match artifact_type {
                    Some(t) => match &m.described.artifact_type {
                        Some(own) => str_eq(own.as_str(), t),
                        None => false,
                    },
                    None => true,
                };
                if typed {
                    found.push(descriptor_of(digest, m));
                }
                reached = Some(*digest);
            } else {
                proof {
                    let now = was.push(*digest);
                    assert(at_most(now, limit as nat) =~= at_most(was, limit as nat));
                }
            }
            count = count + 1;
        }
        i = i + 1;
    }
    assert(keys.subrange(0, n as int) =~= keys);
    let next = if 0 < limit && limit < count {
        reached
    } else {
        None
    };
    Referrers { manifests: found, filter_applied: artifact_type.is_some(), next }
}

/// What a mount leaves behind: the source's bytes under the target, if there is a
/// source.
pub open spec fn is_mount(
    h: Holdings,
    name: Seq<char>,
    digest: Digest,
    from: Option<Seq<char>>,
    mounted: bool,
    after: Holdings,
) -> bool {
    match from {
        Some(source) => if h.serves(source, digest) {
            mounted && after == h.with_repo(
                name,
                h.repo_or_new(name).with_blob(digest, h.repos[source].blobs[digest]),
            )
        } else {
            !mounted && after == h
        },
        None => if mounted {
            exists|source: Seq<char>| #[trigger]
                h.is_first_holder(source, digest) && after == h.with_repo(
                    name,
                    h.repo_or_new(name).with_blob(digest, h.repos[source].blobs[digest]),
                )
        } else {
            (forall|source: Seq<char>| !#[trigger] h.serves(source, digest)) && after == h
        },
    }
}

/// What a registry in memory answers, and what it holds afterwards.
pub open spec fn is_step(h: Holdings, e: Event<Vec<u8>, Vec<u8>>, after: Holdings) -> bool {
    match e {
        Event::ReadWhole(body, limit, r) => after == h && r == if body@.len() <= limit {
            Some(body)
        } else {
            None
        },
        Event::Repositories(last, limit, r) => after == h && (r matches Ok(page) && pages_keys(
            page,
            h.repos,
            last,
            limit as nat,
        )),
        Event::Tags(name, last, limit, r) => after == h && if h.repos.contains_key(name) {
            r matches Ok(page) && pages_keys(page, h.repos[name].tags, last, limit as nat)
        } else {
            r == Err::<Page<String>, OpsError>(OpsError::RepoUnknown)
        },
        Event::StatManifest(name, reference, r) => after == h && if !h.repos.contains_key(name) {
            r == Err::<ManifestStat, OpsError>(OpsError::RepoUnknown)
        } else {
            match h.repos[name].lookup(reference) {
                Some((d, m)) => r is Ok && is_stat(r->Ok_0, d, m),
                None => r == Err::<ManifestStat, OpsError>(OpsError::ManifestUnknown),
            }
        },
        Event::GetManifest(name, reference, r) => after == h && if !h.repos.contains_key(name) {
            r == Err::<(ManifestStat, Vec<u8>), OpsError>(OpsError::RepoUnknown)
        } else {
            match h.repos[name].lookup(reference) {
                Some((d, m)) => r is Ok && is_stat((r->Ok_0).0, d, m) && (r->Ok_0).1@ == m.body,
                None => r == Err::<(ManifestStat, Vec<u8>), OpsError>(OpsError::ManifestUnknown),
            }
        },
        Event::PutManifest(name, reference, content_type, tags, body, r) => match push_digest(
            reference,
            body,
        ) {
            Err(e) => r == Err::<ManifestPut, OpsError>(e) && after == h,
            Ok(digest) => {
                &&& r is Ok
                &&& (r->Ok_0).digest == digest
                &&& (r->Ok_0).subject == description_of(body).subject
                &&& (r->Ok_0).tags.deep_view() == tags
                &&& after == pushed(h, name, reference, content_type, tags, body, digest)
            },
        },
        Event::DeleteManifest(name, reference, r) => if !h.repos.contains_key(name) {
            r == Err::<(), OpsError>(OpsError::RepoUnknown) && after == h
        } else {
            match without_reference(h.repos[name], reference) {
                Some(repo) => r is Ok && after == h.with_repo(name, repo),
                None => r == Err::<(), OpsError>(OpsError::ManifestUnknown) && after == h,
            }
        },
        Event::StatBlob(name, digest, r) => after == h && r == if h.serves(name, digest) {
            Ok::<u64, OpsError>(h.repos[name].blobs[digest].len() as u64)
        } else {
            Err(OpsError::BlobUnknown)
        },
        Event::GetBlob(name, digest, window, r) => after == h && if h.serves(name, digest) {
            let bytes = h.repos[name].blobs[digest];
            &&& r is Ok
            &&& (r->Ok_0).total_size == bytes.len()
            &&& (r->Ok_0).window == window
            &&& (r->Ok_0).body@ == windowed(bytes, window)
        } else {
            r == Err::<BlobRead<Vec<u8>>, OpsError>(OpsError::BlobUnknown)
        },
        Event::DeleteBlob(name, digest, r) => if h.serves(name, digest) {
            let repo = h.repos[name];
            r is Ok && after == h.with_repo(
                name,
                RepoModel { blobs: repo.blobs.remove(digest), ..repo },
            )
        } else {
            r == Err::<(), OpsError>(OpsError::BlobUnknown) && after == h
        },
        Event::MountBlob(name, digest, from, r) => r is Ok && is_mount(
            h,
            name,
            digest,
            from,
            r->Ok_0,
            after,
        ),
        Event::CreateUpload(name, id, algorithm, r) => r is Ok && after == h.with_repo(
            name,
            h.repo_or_new(name),
        ).with_upload(id, SessionModel { repo: name, algorithm, buffer: Seq::empty() }),
        Event::UploadOffset(name, id, r) => after == h && r == if h.has_upload(name, id) {
            Ok::<u64, OpsError>(h.uploads[id].buffer.len() as u64)
        } else {
            Err(OpsError::UploadUnknown)
        },
        Event::AppendUpload(name, id, offset, body, r) => match append_objection(
            h,
            name,
            id,
            offset,
            body,
        ) {
            Some(e) => r == Err::<u64, OpsError>(e) && after == h,
            None => {
                let session = h.uploads[id];
                let buffer = session.buffer + body.body@;
                &&& r == Ok::<u64, OpsError>(buffer.len() as u64)
                &&& after == h.with_upload(id, SessionModel { buffer, ..session })
            },
        },
        Event::FinishUpload(name, id, offset, body, digest, r) => match append_objection(
            h,
            name,
            id,
            offset,
            body,
        ) {
            Some(e) => r == Err::<(), OpsError>(e) && after == h,
            None => if completes(h.uploads[id], body.body@, digest) {
                &&& r is Ok
                &&& after == h.without_upload(id).with_repo(
                    name,
                    h.repo_or_new(name).with_blob(digest, h.uploads[id].buffer + body.body@),
                )
            } else {
                r == Err::<(), OpsError>(OpsError::DigestMismatch) && after == h
            },
        },
        Event::CancelUpload(name, id, r) => if h.has_upload(name, id) {
            r is Ok && after == h.without_upload(id)
        } else {
            r == Err::<(), OpsError>(OpsError::UploadUnknown) && after == h
        },
        Event::PutBlob(name, digest, body, r) => match body_objection(
            body.body@.len(),
            body.declared,
            body.limit,
        ) {
            Some(e) => r == Err::<(), OpsError>(e) && after == h,
            None => if verifies(digest, body.body@) {
                r is Ok && after == h.with_repo(
                    name,
                    h.repo_or_new(name).with_blob(digest, body.body@),
                )
            } else {
                r == Err::<(), OpsError>(OpsError::DigestMismatch) && after == h
            },
        },
        Event::Referrers(name, subject, artifact_type, last, limit, r) => after == h && r is Ok
            && is_referrers(
            r->Ok_0,
            h.repo_or_new(name).manifests,
            subject,
            artifact_type,
            last,
            limit as nat,
        ),
        // It is never asked for what the web pages show.
        Event::RepositorySummaries(..) | Event::RepositoryDetail(..) | Event::TagDetails(..)
        | Event::ManifestDetails(..) | Event::ManifestDetail(..) | Event::TagHistory(..) => false,
    }
}

/// A repository without what a reference names, if it names anything: a tag alone,
/// or a manifest with every tag that points at it.
pub open spec fn without_reference(repo: RepoModel, reference: Referred) -> Option<RepoModel> {
    match reference {
        Referred::Tag(t) => if repo.tags.contains_key(t) {
            Some(RepoModel { tags: repo.tags.remove(t), ..repo })
        } else {
            None
        },
        Referred::Digest(d) => if repo.manifests.contains_key(d) {
            Some(repo.without_manifest(d))
        } else {
            None
        },
    }
}

impl Registry for MemoryRegistry {
    type Body = Vec<u8>;

    type Content = Vec<u8>;

    type Holding = Holdings;

    closed spec fn log(&self) -> Seq<Event<Vec<u8>, Vec<u8>>> {
        self.asked@
    }

    open spec fn held(&self) -> Holdings {
        self@
    }

    open spec fn steps(
        before: Holdings,
        e: Event<Vec<u8>, Vec<u8>>,
        after: Holdings,
    ) -> bool {
        is_step(before, e, after)
    }

    fn read_whole(&mut self, body: Vec<u8>, limit: usize) -> (r: Option<Vec<u8>>) {
        let ghost arriving = body;
        let r = if body.len() <= limit {
            Some(body)
        } else {
            None
        };
        self.asked = Ghost(self.asked@.push(Event::ReadWhole(arriving, limit, r)));
        r
    }

    fn repositories(&mut self, last: Option<&str>, limit: usize) -> (r: OpsResult<Page<String>>) {
        let all = names(&self.repos);
        let last_name = match last {
            Some(l) => Some(l.to_owned()),
            None => None,
        };
        let texts = all.as_slice();
        assert(texts.deep_view() =~= all.deep_view());
        let page = paginate(texts, last_name.as_ref(), limit);
        let r = Ok(page);
        self.asked = Ghost(self.asked@.push(Event::Repositories(optional_text(last), limit, r)));
        r
    }

    fn tags(&mut self, name: &str, last: Option<&str>, limit: usize) -> (r: OpsResult<Page<String>>) {
        let r = match self.repos.get(&name.to_owned()) {
            Some(repo) => {
                let all = names(&repo.tags);
                let last_name = match last {
                    Some(l) => Some(l.to_owned()),
                    None => None,
                };
                let texts = all.as_slice();
                assert(texts.deep_view() =~= all.deep_view());
                let page = paginate(texts, last_name.as_ref(), limit);
                Ok(page)
            },
            None => Err(OpsError::RepoUnknown),
        };
        self.asked = Ghost(self.asked@.push(Event::Tags(name@, optional_text(last), limit, r)));
        r
    }

    fn stat_manifest(&mut self, name: &str, reference: &Reference) -> (r: OpsResult<ManifestStat>) {
        let r = match self.repos.get(&name.to_owned()) {
            Some(repo) => match repo.lookup(reference) {
                Some((d, m)) => Ok(stat_of(d, m)),
                None => Err(OpsError::ManifestUnknown),
            },
            None => Err(OpsError::RepoUnknown),
        };
        self.asked = Ghost(
            self.asked@.push(Event::StatManifest(name@, reference.deep_view(), r)),
        );
        r
    }

    fn get_manifest(&mut self, name: &str, reference: &Reference) -> (r: OpsResult<
        (ManifestStat, Vec<u8>),
    >) {
        let r = match self.repos.get(&name.to_owned()) {
            Some(repo) => match repo.lookup(reference) {
                Some((d, m)) => Ok((stat_of(d, m), copied(&m.body))),
                None => Err(OpsError::ManifestUnknown),
            },
            None => Err(OpsError::RepoUnknown),
        };
        self.asked = Ghost(
            self.asked@.push(Event::GetManifest(name@, reference.deep_view(), r)),
        );
        r
    }

    fn put_manifest(
        &mut self,
        name: &str,
        reference: &Reference,
        content_type: &str,
        tags: &Vec<String>,
        body: Vec<u8>,
    ) -> (r: OpsResult<ManifestPut>) {
        let ghost bytes = body@;
        let digest = match reference {
            Reference::Digest(claimed) => if hashes_to(body.as_slice(), claimed) {
                Ok(*claimed)
            } else {
                Err(OpsError::DigestMismatch)
            },
            Reference::Tag(_) => match sha256(body.as_slice()) {
                Some(d) => Ok(d),
                None => Err(OpsError::BodyTooLarge { limit: u64::MAX / 8 }),
            },
        };
        let r = match digest {
            Err(e) => Err(e),
            Ok(digest) => {
                let described = read_manifest(body.as_slice());
                let subject = described.subject;
                let key = name.to_owned();
                let mut repo = self.take_repo(&key);
                let ghost before = repo@;
                repo.manifests.insert(
                    digest,
                    StoredManifest { media_type: content_type.to_owned(), body, described },
                );
                if let Reference::Tag(tag) = reference {
                    repo.tags.insert(tag.as_str().to_owned(), digest);
                }
                let ghost held = repo@;
                let ghost all = tags.deep_view();
                let mut echo: Vec<String> = Vec::new();
                let mut i: usize = 0;
                assert(all.subrange(0, 0) =~= Seq::empty());
                while i < tags.len()
                    invariant
                        i <= tags@.len(),
                        all == tags.deep_view(),
                        repo@ == held.with_tags(all.subrange(0, i as int), digest),
                        echo.deep_view() =~= all.subrange(0, i as int),
                    decreases tags@.len() - i,
                {
                    proof {
                        let now = all.subrange(0, i + 1);
                        assert(now.drop_last() =~= all.subrange(0, i as int));
                        assert(now.last() == tags@[i as int]@);
                    }
                    repo.tags.insert(tags[i].as_str().to_owned(), digest);
                    echo.push(tags[i].as_str().to_owned());
                    i = i + 1;
                }
                assert(all.subrange(0, i as int) =~= all);
                let ghost now = repo@;
                self.put_repo(key, repo);
                assert(old(self)@.repos.remove(name@).insert(name@, now)
                    =~= old(self)@.repos.insert(name@, now));
                Ok(ManifestPut { digest, subject, tags: echo })
            },
        };
        self.asked = Ghost(
            self.asked@.push(
                Event::PutManifest(
                    name@,
                    reference.deep_view(),
                    content_type@,
                    tags.deep_view(),
                    bytes,
                    r,
                ),
            ),
        );
        r
    }

    fn delete_manifest(&mut self, name: &str, reference: &Reference) -> (r: OpsResult<()>) {
        let key = name.to_owned();
        let r = match self.repos.remove(&key) {
            None => Err(OpsError::RepoUnknown),
            Some(mut repo) => {
                let ghost was = repo@;
                let gone = match reference {
                    Reference::Tag(tag) => repo.tags.remove(tag).is_some(),
                    Reference::Digest(digest) => {
                        let found = repo.manifests.remove(digest).is_some();
                        if found {
                            untag(&mut repo, digest);
                            assert(repo@.tags =~= was.without_manifest(*digest).tags);
                        }
                        found
                    },
                };
                let ghost now = repo@;
                self.repos.insert(key, repo);
                proof {
                    assert(old(self)@.repos.remove(name@).insert(name@, now)
                        =~= old(self)@.repos.insert(name@, now));
                    assert(old(self)@.repos.insert(name@, was) =~= old(self)@.repos);
                }
                if gone {
                    Ok(())
                } else {
                    Err(OpsError::ManifestUnknown)
                }
            },
        };
        self.asked = Ghost(
            self.asked@.push(Event::DeleteManifest(name@, reference.deep_view(), r)),
        );
        r
    }

    fn stat_blob(&mut self, name: &str, digest: &Digest) -> (r: OpsResult<u64>) {
        let r = match self.repos.get(&name.to_owned()) {
            Some(repo) => match repo.blobs.get(digest) {
                Some(bytes) => Ok(bytes.len() as u64),
                None => Err(OpsError::BlobUnknown),
            },
            None => Err(OpsError::BlobUnknown),
        };
        self.asked = Ghost(self.asked@.push(Event::StatBlob(name@, *digest, r)));
        r
    }

    fn get_blob(&mut self, name: &str, digest: &Digest, window: Option<ByteRange>) -> (r: OpsResult<
        BlobRead<Vec<u8>>,
    >) {
        let r = match self.repos.get(&name.to_owned()) {
            Some(repo) => match repo.blobs.get(digest) {
                Some(bytes) => {
                    let total = bytes.len() as u64;
                    let body = match window {
                        Some(w) => {
                            let start: u64 = if w.start <= total {
                                w.start
                            } else {
                                total
                            };
                            let end: u64 = if w.end + 1 <= total {
                                w.end + 1
                            } else {
                                total
                            };
                            vstd::slice::slice_to_vec(
                                vstd::slice::slice_subrange(
                                    bytes.as_slice(),
                                    start as usize,
                                    end as usize,
                                ),
                            )
                        },
                        None => copied(bytes),
                    };
                    Ok(BlobRead { total_size: total, window, body })
                },
                None => Err(OpsError::BlobUnknown),
            },
            None => Err(OpsError::BlobUnknown),
        };
        self.asked = Ghost(self.asked@.push(Event::GetBlob(name@, *digest, window, r)));
        r
    }

    fn delete_blob(&mut self, name: &str, digest: &Digest) -> (r: OpsResult<()>) {
        let key = name.to_owned();
        let r = match self.repos.remove(&key) {
            None => Err(OpsError::BlobUnknown),
            Some(mut repo) => {
                let ghost was = repo@;
                let gone = repo.blobs.remove(digest).is_some();
                let ghost now = repo@;
                self.repos.insert(key, repo);
                proof {
                    assert(old(self)@.repos.remove(name@).insert(name@, now)
                        =~= old(self)@.repos.insert(name@, now));
                    assert(old(self)@.repos.insert(name@, was) =~= old(self)@.repos);
                }
                if gone {
                    Ok(())
                } else {
                    Err(OpsError::BlobUnknown)
                }
            },
        };
        self.asked = Ghost(self.asked@.push(Event::DeleteBlob(name@, *digest, r)));
        r
    }

    fn mount_blob(&mut self, name: &str, digest: &Digest, from: Option<&str>) -> (r: OpsResult<bool>) {
        let source = match from {
            Some(f) => match self.repos.get(&f.to_owned()) {
                Some(repo) => match repo.blobs.get(digest) {
                    Some(bytes) => Some(copied(bytes)),
                    None => None,
                },
                None => None,
            },
            None => self.held_anywhere(digest),
        };
        let r = match source {
            Some(bytes) => {
                self.store_blob(name, digest, bytes);
                Ok(true)
            },
            None => Ok(false),
        };
        self.asked = Ghost(
            self.asked@.push(Event::MountBlob(name@, *digest, optional_text(from), r)),
        );
        r
    }

    fn create_upload(&mut self, name: &str, id: &str, algorithm: &str) -> (r: OpsResult<()>) {
        let key = name.to_owned();
        let repo = self.take_repo(&key);
        let ghost held = repo@;
        self.put_repo(key, repo);
        assert(old(self)@.repos.remove(name@).insert(name@, held) =~= old(self)@.repos.insert(
            name@,
            held,
        ));
        let session = Session {
            repo: name.to_owned(),
            algorithm: algorithm.to_owned(),
            buffer: Vec::new(),
        };
        assert(session.buffer@ =~= Seq::empty());
        self.uploads.insert(id.to_owned(), session);
        let r = Ok(());
        self.asked = Ghost(self.asked@.push(Event::CreateUpload(name@, id@, algorithm@, r)));
        r
    }

    fn upload_offset(&mut self, name: &str, id: &str) -> (r: OpsResult<u64>) {
        let r = match self.uploads.get(&id.to_owned()) {
            Some(upload) => if str_eq(upload.repo.as_str(), name) {
                Ok(upload.buffer.len() as u64)
            } else {
                Err(OpsError::UploadUnknown)
            },
            None => Err(OpsError::UploadUnknown),
        };
        self.asked = Ghost(self.asked@.push(Event::UploadOffset(name@, id@, r)));
        r
    }

    fn append_upload(
        &mut self,
        name: &str,
        id: &str,
        expected_offset: u64,
        body: UploadBody<Vec<u8>>,
    ) -> (r: OpsResult<u64>) {
        let ghost arriving = body;
        let r = match body.collect() {
            Err(e) => Err(e),
            Ok(chunk) => self.append(name, id, expected_offset, chunk),
        };
        self.asked = Ghost(
            self.asked@.push(Event::AppendUpload(name@, id@, expected_offset, arriving, r)),
        );
        r
    }

    fn finish_upload(
        &mut self,
        name: &str,
        id: &str,
        expected_offset: u64,
        body: UploadBody<Vec<u8>>,
        digest: &Digest,
    ) -> (r: OpsResult<()>) {
        let ghost arriving = body;
        let r = match body.collect() {
            Err(e) => Err(e),
            Ok(chunk) => self.finish(name, id, expected_offset, chunk, digest),
        };
        self.asked = Ghost(
            self.asked@.push(
                Event::FinishUpload(name@, id@, expected_offset, arriving, *digest, r),
            ),
        );
        r
    }

    fn cancel_upload(&mut self, name: &str, id: &str) -> (r: OpsResult<()>) {
        let key = id.to_owned();
        let found = match self.uploads.get(&key) {
            Some(upload) => str_eq(upload.repo.as_str(), name),
            None => false,
        };
        let r = if found {
            self.uploads.remove(&key);
            Ok(())
        } else {
            Err(OpsError::UploadUnknown)
        };
        self.asked = Ghost(self.asked@.push(Event::CancelUpload(name@, id@, r)));
        r
    }

    fn put_blob(&mut self, name: &str, digest: &Digest, body: UploadBody<Vec<u8>>) -> (r: OpsResult<
        (),
    >) {
        let ghost arriving = body;
        let r = match body.collect() {
            Err(e) => Err(e),
            Ok(bytes) => if hashes_to(bytes.as_slice(), digest) {
                self.store_blob(name, digest, bytes);
                Ok(())
            } else {
                Err(OpsError::DigestMismatch)
            },
        };
        self.asked = Ghost(self.asked@.push(Event::PutBlob(name@, *digest, arriving, r)));
        r
    }

    fn referrers(
        &mut self,
        name: &str,
        subject: &Digest,
        artifact_type: Option<&str>,
        last: Option<&Digest>,
        limit: usize,
    ) -> (r: OpsResult<Referrers>) {
        let found = match self.repos.get(&name.to_owned()) {
            Some(repo) => list_referrers(&repo.manifests, subject, artifact_type, last, limit),
            None => {
                let none: Table<Digest, StoredManifest> = Table::new();
                list_referrers(&none, subject, artifact_type, last, limit)
            },
        };
        let r = Ok(found);
        self.asked = Ghost(
            self.asked@.push(
                Event::Referrers(
                    name@,
                    *subject,
                    optional_text(artifact_type),
                    optional_digest(last),
                    limit,
                    r,
                ),
            ),
        );
        r
    }
}

/// Take away every tag that points at a digest.
fn untag(repo: &mut Repo, digest: &Digest)
    ensures
        final(repo)@ == (RepoModel {
            tags: Map::new(
                |t: Seq<char>| old(repo)@.tags.contains_key(t) && old(repo)@.tags[t] != *digest,
                |t: Seq<char>| old(repo)@.tags[t],
            ),
            ..old(repo)@
        }),
{
    let ghost was = repo.tags@;
    let all = names(&repo.tags);
    let ghost texts = all.deep_view();
    let mut i: usize = 0;
    while i < all.len()
        invariant
            i <= all@.len(),
            texts == all.deep_view(),
            was == old(repo)@.tags,
            lists(texts, was),
            repo@.manifests == old(repo)@.manifests,
            repo@.blobs == old(repo)@.blobs,
            forall|t: Seq<char>| #[trigger]
                repo@.tags.contains_key(t) <==> was.contains_key(t) && !(was[t] == *digest
                    && texts.subrange(0, i as int).contains(t)),
            forall|t: Seq<char>| #[trigger]
                repo@.tags.contains_key(t) ==> repo@.tags[t] == was[t],
        decreases all@.len() - i,
    {
        let ghost before = repo@.tags;
        let ghost tag = texts[i as int];
        let aimed = match repo.tags.get(&all[i]) {
            Some(target) => same_digest(target, digest),
            None => false,
        };
        if aimed {
            repo.tags.remove(&all[i]);
        }
        proof {
            let (front, longer) = (texts.subrange(0, i as int), texts.subrange(0, i + 1));
            assert(longer =~= front.push(tag));
            assert forall|t: Seq<char>| longer.contains(t) <==> front.contains(t) || t == tag by {
                if front.contains(t) {
                    let k = choose|k: int| 0 <= k < front.len() && front[k] == t;
                    assert(longer[k] == t);
                }
                assert(longer[i as int] == tag);
            }
            assert(was.contains_key(tag));
        }
        i = i + 1;
    }
    proof {
        assert(texts.subrange(0, i as int) =~= texts);
        assert(repo@.tags =~= Map::new(
            |t: Seq<char>| was.contains_key(t) && was[t] != *digest,
            |t: Seq<char>| was[t],
        ));
    }
}

impl MemoryRegistry {
    /// A blob's bytes, from the first repository that serves it.
    fn held_anywhere(&self, digest: &Digest) -> (r: Option<Vec<u8>>)
        ensures
            match r {
                Some(bytes) => exists|name: Seq<char>| #[trigger]
                    self@.is_first_holder(name, *digest) && bytes@
                        == self@.repos[name].blobs[*digest],
                None => forall|name: Seq<char>| !#[trigger] self@.serves(name, *digest),
            },
    {
        let n = self.repos.len();
        let ghost keys = self.repos.keys();
        let mut i: usize = 0;
        while i < n
            invariant
                i <= n,
                n == keys.len(),
                keys == self.repos.keys(),
                ascending::<String>(keys),
                lists(keys, self.repos@),
                forall|k: int| 0 <= k < i ==> !self@.serves(#[trigger] keys[k], *digest),
            decreases n - i,
        {
            let repo = self.repos.value_at(i);
            if let Some(bytes) = repo.blobs.get(digest) {
                proof {
                    let name = keys[i as int];
                    assert(self@.serves(name, *digest));
                    assert forall|other: Seq<char>| #[trigger]
                        self@.serves(other, *digest) implies other == name || lex_lt(
                        encode_utf8(name),
                        encode_utf8(other),
                    ) by {
                        assert(self.repos@.contains_key(other));
                        let k = choose|k: int| 0 <= k < keys.len() && keys[k] == other;
                        if k > i {
                            assert(lex_lt(
                                <String as Key>::order(keys[i as int]),
                                <String as Key>::order(keys[k]),
                            ));
                        } else if k < i {
                            assert(!self@.serves(keys[k], *digest));
                        }
                    }
                    assert(self@.is_first_holder(name, *digest));
                }
                return Some(copied(bytes));
            }
            assert(!self@.serves(keys[i as int], *digest));
            i = i + 1;
        }
        proof {
            assert forall|name: Seq<char>| !#[trigger] self@.serves(name, *digest) by {
                if self@.serves(name, *digest) {
                    assert(self.repos@.contains_key(name));
                    let k = choose|k: int| 0 <= k < keys.len() && keys[k] == name;
                    assert(!self@.serves(keys[k], *digest));
                }
            }
        }
        None
    }

    /// Append a chunk to an upload.
    fn append(&mut self, name: &str, id: &str, expected_offset: u64, chunk: Vec<u8>) -> (r: OpsResult<
        u64,
    >)
        ensures
            final(self).log() == old(self).log(),
            if !old(self)@.has_upload(name@, id@) {
                r == Err::<u64, OpsError>(OpsError::UploadUnknown) && final(self)@ == old(self)@
            } else if old(self)@.uploads[id@].buffer.len() != expected_offset {
                r == Err::<u64, OpsError>(
                    OpsError::OffsetMismatch {
                        current: old(self)@.uploads[id@].buffer.len() as u64,
                    },
                ) && final(self)@ == old(self)@
            } else {
                let session = old(self)@.uploads[id@];
                let buffer = session.buffer + chunk@;
                &&& r == Ok::<u64, OpsError>(buffer.len() as u64)
                &&& final(self)@ == old(self)@.with_upload(id@, SessionModel { buffer, ..session })
            },
    {
        let key = id.to_owned();
        match self.uploads.get(&key) {
            None => return Err(OpsError::UploadUnknown),
            Some(upload) => {
                if !str_eq(upload.repo.as_str(), name) {
                    return Err(OpsError::UploadUnknown);
                }
                let current = upload.buffer.len() as u64;
                if current != expected_offset {
                    return Err(OpsError::OffsetMismatch { current });
                }
            },
        }
        match self.uploads.remove(&key) {
            None => Err(OpsError::UploadUnknown),
            Some(mut upload) => {
                append_bytes(&mut upload.buffer, chunk.as_slice());
                let r = Ok(upload.buffer.len() as u64);
                let ghost now = upload@;
                self.uploads.insert(key, upload);
                assert(old(self)@.uploads.remove(id@).insert(id@, now) =~= old(
                    self,
                )@.uploads.insert(id@, now));
                r
            },
        }
    }

    /// Commit an upload with its last chunk. Verification happens here and only
    /// here; on failure nothing commits, and the session survives so that the
    /// client can retry.
    fn finish(
        &mut self,
        name: &str,
        id: &str,
        expected_offset: u64,
        chunk: Vec<u8>,
        digest: &Digest,
    ) -> (r: OpsResult<()>)
        ensures
            final(self).log() == old(self).log(),
            if !old(self)@.has_upload(name@, id@) {
                r == Err::<(), OpsError>(OpsError::UploadUnknown) && final(self)@ == old(self)@
            } else if old(self)@.uploads[id@].buffer.len() != expected_offset {
                r == Err::<(), OpsError>(
                    OpsError::OffsetMismatch {
                        current: old(self)@.uploads[id@].buffer.len() as u64,
                    },
                ) && final(self)@ == old(self)@
            } else if !completes(old(self)@.uploads[id@], chunk@, *digest) {
                r == Err::<(), OpsError>(OpsError::DigestMismatch) && final(self)@ == old(self)@
            } else {
                &&& r is Ok
                &&& final(self)@ == old(self)@.without_upload(id@).with_repo(
                    name@,
                    old(self)@.repo_or_new(name@).with_blob(
                        *digest,
                        old(self)@.uploads[id@].buffer + chunk@,
                    ),
                )
            },
    {
        let key = id.to_owned();
        let bytes = match self.uploads.get(&key) {
            None => return Err(OpsError::UploadUnknown),
            Some(upload) => {
                if !str_eq(upload.repo.as_str(), name) {
                    return Err(OpsError::UploadUnknown);
                }
                let current = upload.buffer.len() as u64;
                if current != expected_offset {
                    return Err(OpsError::OffsetMismatch { current });
                }
                let mut bytes = copied(&upload.buffer);
                append_bytes(&mut bytes, chunk.as_slice());
                if !hashes_to(bytes.as_slice(), digest) {
                    return Err(OpsError::DigestMismatch);
                }
                if !str_eq(upload.algorithm.as_str(), digest.algorithm()) {
                    return Err(OpsError::DigestMismatch);
                }
                bytes
            },
        };
        self.uploads.remove(&key);
        self.store_blob(name, digest, bytes);
        Ok(())
    }
}

} // verus!
