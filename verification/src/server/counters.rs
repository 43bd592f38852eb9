//! Pull counts between two flushes.
//!
//! A counter must never be able to fail a pull, nor to grow without bound: counts
//! are kept per bucket, the number of buckets is capped, and what the cap turns
//! away is itself counted.
use vstd::prelude::*;
use vstd::utf8::*;

use crate::digest::Digest;
use crate::keys;
use crate::server::seam::optional_text;
use crate::storage::store::same_digest;
use crate::text::str_eq;

verus! {

/// How many distinct buckets one flush interval may hold. Reaching it means
/// dropping the tail of a burst rather than growing without bound.
pub const MAX_BUCKETS: usize = 50_000;

/// How many chains the buckets are spread over.
const CHAINS: usize = 4096;

/// Which counter an increment belongs to.
#[derive(Debug, Clone, PartialEq, Eq)]
pub enum Subject {
    Manifest(Digest),
    Tag(String),
    Repo,
}

/// What a counter counts.
pub enum SubjectView {
    Manifest(Digest),
    Tag(Seq<char>),
    Repo,
}

impl DeepView for Subject {
    type V = SubjectView;

    open spec fn deep_view(&self) -> SubjectView {
        match *self {
            Subject::Manifest(d) => SubjectView::Manifest(d),
            Subject::Tag(t) => SubjectView::Tag(t@),
            Subject::Repo => SubjectView::Repo,
        }
    }
}

#[derive(Debug)]
struct BucketKey {
    repo: String,
    subject: Subject,
    day: u16,
    hour: u8,
}

/// One counter during one hour.
pub struct Bucket {
    pub repo: Seq<char>,
    pub subject: SubjectView,
    pub day: u16,
    pub hour: u8,
}

impl View for BucketKey {
    type V = Bucket;

    closed spec fn view(&self) -> Bucket {
        Bucket {
            repo: self.repo@,
            subject: self.subject.deep_view(),
            day: self.day,
            hour: self.hour,
        }
    }
}

/// What is counted in a bucket.
#[derive(Debug, Clone, Copy, PartialEq, Eq, Structural)]
pub struct Counts {
    pub manifest_pulls: u64,
    pub blob_pulls: u64,
    pub bytes_out: u64,
}

/// A sum that stops at the largest number.
pub open spec fn capped_sum(a: u64, b: u64) -> u64 {
    if a + b <= u64::MAX {
        (a + b) as u64
    } else {
        u64::MAX
    }
}

impl Counts {
    pub open spec fn plus(self, other: Counts) -> Counts {
        Counts {
            manifest_pulls: capped_sum(self.manifest_pulls, other.manifest_pulls),
            blob_pulls: capped_sum(self.blob_pulls, other.blob_pulls),
            bytes_out: capped_sum(self.bytes_out, other.bytes_out),
        }
    }

    fn sum(self, other: Counts) -> (r: Counts)
        ensures
            r == self.plus(other),
    {
        Counts {
            manifest_pulls: self.manifest_pulls.saturating_add(other.manifest_pulls),
            blob_pulls: self.blob_pulls.saturating_add(other.blob_pulls),
            bytes_out: self.bytes_out.saturating_add(other.bytes_out),
        }
    }
}

/// One drained increment.
#[derive(Debug, Clone, PartialEq, Eq)]
pub struct Recorded {
    pub repo: String,
    pub subject: Subject,
    pub day: u16,
    pub hour: usize,
    pub manifest_pulls: u64,
    pub blob_pulls: u64,
    pub bytes_out: u64,
}

/// Whether an increment is what a bucket holds.
pub open spec fn records(r: Recorded, b: Bucket, c: Counts) -> bool {
    &&& r.repo@ == b.repo
    &&& r.subject.deep_view() == b.subject
    &&& r.day == b.day
    &&& r.hour == b.hour
    &&& r.manifest_pulls == c.manifest_pulls
    &&& r.blob_pulls == c.blob_pulls
    &&& r.bytes_out == c.bytes_out
}

/// What waits for the next flush.
pub struct Waiting {
    pub buckets: Map<Bucket, Counts>,
    /// Increments that the cap turned away.
    pub dropped: u64,
}

/// What waits after an increment. The cap applies only to new buckets, so a burst
/// on one subject is never turned away.
pub open spec fn added(w: Waiting, b: Bucket, c: Counts) -> Waiting {
    if w.buckets.contains_key(b) {
        Waiting { buckets: w.buckets.insert(b, w.buckets[b].plus(c)), ..w }
    } else if w.buckets.dom().len() >= MAX_BUCKETS {
        Waiting {
            dropped: if w.dropped == u64::MAX {
                0
            } else {
                (w.dropped + 1) as u64
            },
            ..w
        }
    } else {
        Waiting { buckets: w.buckets.insert(b, c), ..w }
    }
}

/// What waits once everything counted was handed over.
pub open spec fn drained(w: Waiting) -> Waiting {
    Waiting { buckets: Map::empty(), ..w }
}

/// What waits once the number turned away was handed over.
pub open spec fn dropped_taken(w: Waiting) -> Waiting {
    Waiting { dropped: 0, ..w }
}

/// One pull of a manifest.
pub open spec fn one_manifest() -> Counts {
    Counts { manifest_pulls: 1, blob_pulls: 0, bytes_out: 0 }
}

/// What waits after a manifest was pulled: it counts for the manifest, for the tag
/// if it was asked for by one, and for the repository.
pub open spec fn manifest_pulled(
    w: Waiting,
    repo: Seq<char>,
    tag: Option<Seq<char>>,
    digest: Digest,
    day: u16,
    hour: u8,
) -> Waiting {
    let by_digest = added(
        w,
        Bucket { repo, subject: SubjectView::Manifest(digest), day, hour },
        one_manifest(),
    );
    let by_tag = match tag {
        Some(t) => added(
            by_digest,
            Bucket { repo, subject: SubjectView::Tag(t), day, hour },
            one_manifest(),
        ),
        None => by_digest,
    };
    added(by_tag, Bucket { repo, subject: SubjectView::Repo, day, hour }, one_manifest())
}

// --- chains --------------------------------------------------------------------

/// Where the bytes of a key lead.
spec fn folded(b: Seq<u8>, start: nat) -> nat
    decreases b.len(),
{
    if b.len() == 0 {
        start
    } else {
        (folded(b.drop_last(), start) * 31 + b.last() as nat) % 4096
    }
}

fn fold(b: &[u8], start: usize) -> (r: usize)
    requires
        start < CHAINS,
    ensures
        r < CHAINS,
        r == folded(b@, start as nat),
{
    let mut h: usize = start;
    let mut i: usize = 0;
    assert(b@.subrange(0, 0) =~= Seq::empty());
    while i < b.len()
        invariant
            i <= b@.len(),
            h < CHAINS,
            CHAINS == 4096,
            h == folded(b@.subrange(0, i as int), start as nat),
        decreases b@.len() - i,
    {
        assert(b@.subrange(0, i + 1).drop_last() =~= b@.subrange(0, i as int));
        h = (h * 31 + b[i] as usize) % CHAINS;
        i = i + 1;
    }
    assert(b@.subrange(0, i as int) =~= b@);
    h
}

/// The chain that a bucket belongs to.
spec fn chain_of(b: Bucket) -> nat {
    let by_repo = folded(encode_utf8(b.repo), (b.hour % 32) as nat);
    match b.subject {
        SubjectView::Manifest(d) => folded(d.raw_bytes(), by_repo),
        SubjectView::Tag(t) => folded(encode_utf8(t), by_repo),
        SubjectView::Repo => by_repo,
    }
}

impl BucketKey {
    fn chain(&self) -> (r: usize)
        ensures
            r < CHAINS,
            r == chain_of(self@),
    {
        let by_repo = fold(self.repo.as_str().as_bytes(), (self.hour % 32) as usize);
        match &self.subject {
            Subject::Manifest(d) => fold(d.raw(), by_repo),
            Subject::Tag(t) => fold(t.as_str().as_bytes(), by_repo),
            Subject::Repo => by_repo,
        }
    }

    fn same(&self, other: &BucketKey) -> (r: bool)
        ensures
            r == (self@ == other@),
    {
        if self.day != other.day || self.hour != other.hour || !str_eq(
            self.repo.as_str(),
            other.repo.as_str(),
        ) {
            return false;
        }
        match (&self.subject, &other.subject) {
            (Subject::Manifest(a), Subject::Manifest(b)) => same_digest(a, b),
            (Subject::Tag(a), Subject::Tag(b)) => str_eq(a.as_str(), b.as_str()),
            (Subject::Repo, Subject::Repo) => true,
            _ => false,
        }
    }
}

type Chain = Vec<(BucketKey, Counts)>;

/// Whether a chain holds a bucket, and where.
spec fn stands_at(chains: Seq<Chain>, b: Bucket, j: int) -> bool {
    let chain = chains[chain_of(b) as int]@;
    0 <= j < chain.len() && chain[j].0@ == b
}

spec fn content(chains: Seq<Chain>) -> Map<Bucket, Counts> {
    Map::new(
        |b: Bucket| exists|j: int| stands_at(chains, b, j),
        |b: Bucket|
            chains[chain_of(b) as int]@[choose|j: int| stands_at(chains, b, j)].1,
    )
}

/// Every bucket stands in its own chain, once.
spec fn in_place(chains: Seq<Chain>) -> bool {
    &&& chains.len() == CHAINS
    &&& forall|c: int, j: int|
        0 <= c < chains.len() && 0 <= j < chains[c]@.len() ==> chain_of(
            (#[trigger] chains[c]@[j]).0@,
        ) == c
    &&& forall|c: int, i: int, j: int|
        0 <= c < chains.len() && 0 <= i < j < chains[c]@.len() ==> (#[trigger] chains[c]@[i]).0@ != (
        #[trigger] chains[c]@[j]).0@
}

proof fn lemma_chain_bound(b: Bucket)
    ensures
        chain_of(b) < CHAINS,
{
    lemma_fold_bound(encode_utf8(b.repo), (b.hour % 32) as nat);
    let by_repo = folded(encode_utf8(b.repo), (b.hour % 32) as nat);
    match b.subject {
        SubjectView::Manifest(d) => lemma_fold_bound(d.raw_bytes(), by_repo),
        SubjectView::Tag(t) => lemma_fold_bound(encode_utf8(t), by_repo),
        SubjectView::Repo => {},
    }
}

proof fn lemma_fold_bound(b: Seq<u8>, start: nat)
    requires
        start < CHAINS,
    ensures
        folded(b, start) < CHAINS,
{
}

proof fn lemma_content(chains: Seq<Chain>, c: int, j: int)
    requires
        in_place(chains),
        0 <= c < chains.len(),
        0 <= j < chains[c]@.len(),
    ensures
        content(chains).contains_key(chains[c]@[j].0@),
        content(chains)[chains[c]@[j].0@] == chains[c]@[j].1,
{
    let b = chains[c]@[j].0@;
    assert(chain_of(b) == c);
    assert(stands_at(chains, b, j));
    let k = choose|k: int| stands_at(chains, b, k);
    assert(stands_at(chains, b, k));
    if k < j {
        assert(chains[c]@[k].0@ != chains[c]@[j].0@);
    } else if j < k {
        assert(chains[c]@[j].0@ != chains[c]@[k].0@);
    }
}

proof fn lemma_absent(chains: Seq<Chain>, b: Bucket)
    requires
        forall|j: int|
            0 <= j < chains[chain_of(b) as int]@.len() ==> (#[trigger] chains[chain_of(
                b,
            ) as int]@[j]).0@ != b,
    ensures
        !content(chains).contains_key(b),
{
    if content(chains).contains_key(b) {
        let j = choose|j: int| stands_at(chains, b, j);
        assert(stands_at(chains, b, j));
    }
}

/// A bucket's counts are replaced.
proof fn lemma_recounted(was: Seq<Chain>, now: Seq<Chain>, c: int, j: int, counts: Counts)
    requires
        in_place(was),
        0 <= c < was.len(),
        0 <= j < was[c]@.len(),
        now.len() == was.len(),
        forall|x: int| 0 <= x < was.len() && x != c ==> now[x] == was[x],
        now[c]@.len() == was[c]@.len(),
        forall|x: int| 0 <= x < was[c]@.len() && x != j ==> now[c]@[x] == was[c]@[x],
        now[c]@[j].0@ == was[c]@[j].0@,
        now[c]@[j].1 == counts,
    ensures
        in_place(now),
        content(now) == content(was).insert(was[c]@[j].0@, counts),
{
    let key = was[c]@[j].0@;
    assert forall|x: int, y: int|
        0 <= x < now.len() && 0 <= y < now[x]@.len() implies (#[trigger] now[x]@[y]).0@
        == was[x]@[y].0@ by {}
    assert forall|x: int, y: int|
        0 <= x < now.len() && 0 <= y < now[x]@.len() implies chain_of((#[trigger] now[x]@[y]).0@)
        == x by {
        assert(chain_of(was[x]@[y].0@) == x);
    }
    assert forall|x: int, y: int, z: int|
        0 <= x < now.len() && 0 <= y < z < now[x]@.len() implies (#[trigger] now[x]@[y]).0@ != (
    #[trigger] now[x]@[z]).0@ by {
        assert(was[x]@[y].0@ != was[x]@[z].0@);
    }
    assert forall|b: Bucket| content(now).contains_key(b) == content(was).insert(
        key,
        counts,
    ).contains_key(b) by {
        lemma_chain_bound(b);
        lemma_content(was, c, j);
        if content(now).contains_key(b) {
            let y = choose|y: int| stands_at(now, b, y);
            assert(stands_at(was, b, y));
        }
        if content(was).contains_key(b) {
            let y = choose|y: int| stands_at(was, b, y);
            assert(stands_at(now, b, y));
        }
    }
    assert forall|b: Bucket| content(now).contains_key(b) implies content(now)[b] == content(
        was,
    ).insert(key, counts)[b] by {
        lemma_chain_bound(b);
        let y = choose|y: int| stands_at(now, b, y);
        let x = chain_of(b) as int;
        lemma_content(now, x, y);
        lemma_content(was, x, y);
        if x == c && y == j {
        } else if b == key {
            lemma_content(now, c, j);
            if y < j {
                assert(now[c]@[y].0@ != now[c]@[j].0@);
            } else {
                assert(now[c]@[j].0@ != now[c]@[y].0@);
            }
        }
    }
    assert(content(now) =~= content(was).insert(key, counts));
}

/// A bucket is opened.
proof fn lemma_opened(was: Seq<Chain>, now: Seq<Chain>, c: int, row: (BucketKey, Counts))
    requires
        in_place(was),
        0 <= c < was.len(),
        chain_of(row.0@) == c,
        !content(was).contains_key(row.0@),
        now.len() == was.len(),
        forall|x: int| 0 <= x < was.len() && x != c ==> now[x] == was[x],
        now[c]@ == was[c]@.push(row),
    ensures
        in_place(now),
        content(now) == content(was).insert(row.0@, row.1),
{
    let key = row.0@;
    let last = was[c]@.len() as int;
    assert forall|y: int| 0 <= y < last implies (#[trigger] was[c]@[y]).0@ != key by {
        lemma_content(was, c, y);
    }
    assert forall|x: int, y: int|
        0 <= x < now.len() && 0 <= y < now[x]@.len() implies chain_of((#[trigger] now[x]@[y]).0@)
        == x by {
        if x != c || y != last {
            assert(now[x]@[y] == was[x]@[y]);
        }
    }
    assert forall|x: int, y: int, z: int|
        0 <= x < now.len() && 0 <= y < z < now[x]@.len() implies (#[trigger] now[x]@[y]).0@ != (
    #[trigger] now[x]@[z]).0@ by {
        assert(now[x]@[y] == was[x]@[y]);
        if x == c && z == last {
            assert(was[c]@[y].0@ != key);
        } else {
            assert(now[x]@[z] == was[x]@[z]);
        }
    }
    assert forall|b: Bucket| content(now).contains_key(b) == content(was).insert(
        key,
        row.1,
    ).contains_key(b) by {
        lemma_chain_bound(b);
        assert(stands_at(now, key, last));
        if content(now).contains_key(b) && b != key {
            let y = choose|y: int| stands_at(now, b, y);
            assert(stands_at(was, b, y));
        }
        if content(was).contains_key(b) {
            let y = choose|y: int| stands_at(was, b, y);
            assert(stands_at(now, b, y));
        }
    }
    assert forall|b: Bucket| content(now).contains_key(b) implies content(now)[b] == content(
        was,
    ).insert(key, row.1)[b] by {
        lemma_chain_bound(b);
        let y = choose|y: int| stands_at(now, b, y);
        let x = chain_of(b) as int;
        lemma_content(now, x, y);
        if b == key {
            lemma_content(now, c, last);
        } else {
            assert(now[x]@[y] == was[x]@[y]);
            lemma_content(was, x, y);
        }
    }
    assert(content(now) =~= content(was).insert(key, row.1));
}

/// Increments waiting for the next flush.
pub struct PullCounters {
    enabled: bool,
    chains: Vec<Chain>,
    held: usize,
    dropped: u64,
}

/// Empty chains.
fn no_chains() -> (r: Vec<Chain>)
    ensures
        in_place(r@),
        content(r@) == Map::<Bucket, Counts>::empty(),
{
    let mut chains: Vec<Chain> = Vec::new();
    let mut i: usize = 0;
    while i < CHAINS
        invariant
            i <= CHAINS,
            chains@.len() == i,
            forall|c: int| 0 <= c < i ==> (#[trigger] chains@[c])@.len() == 0,
        decreases CHAINS - i,
    {
        let chain: Chain = Vec::new();
        chains.push(chain);
        i = i + 1;
    }
    proof {
        assert forall|b: Bucket| !content(chains@).contains_key(b) by {
            lemma_chain_bound(b);
            lemma_absent(chains@, b);
        }
        assert(content(chains@) =~= Map::empty());
    }
    chains
}

impl View for PullCounters {
    type V = Waiting;

    closed spec fn view(&self) -> Waiting {
        Waiting { buckets: content(self.chains@), dropped: self.dropped }
    }
}

impl PullCounters {
    /// The counter is well-formed.
    pub closed spec fn valid(self) -> bool {
        &&& in_place(self.chains@)
        &&& self@.buckets.dom().finite()
        &&& self.held == self@.buckets.dom().len()
        &&& self.held <= MAX_BUCKETS
    }

    /// Whether anything is counted.
    pub closed spec fn counts(self) -> bool {
        self.enabled
    }

    pub fn new() -> (r: PullCounters)
        ensures
            r.valid(),
            r.counts(),
            r@ == (Waiting { buckets: Map::empty(), dropped: 0 }),
    {
        PullCounters { enabled: true, chains: no_chains(), held: 0, dropped: 0 }
    }

    /// A counter that counts nothing. Disabled rather than optional, so that no
    /// call site has to ask.
    pub fn disabled() -> (r: PullCounters)
        ensures
            r.valid(),
            !r.counts(),
            r@ == (Waiting { buckets: Map::empty(), dropped: 0 }),
    {
        PullCounters { enabled: false, chains: no_chains(), held: 0, dropped: 0 }
    }

    pub fn is_enabled(&self) -> (r: bool)
        ensures
            r == self.counts(),
    {
        self.enabled
    }

    /// Add into an existing bucket, or open a new one while there is room.
    fn tally(&mut self, key: BucketKey, counts: Counts)
        requires
            old(self).valid(),
        ensures
            final(self).valid(),
            final(self).counts() == old(self).counts(),
            final(self)@ == added(old(self)@, key@, counts),
    {
        let c = key.chain();
        let ghost was = self.chains@;
        let n = self.chains[c].len();
        let mut j: usize = 0;
        while j < n
            invariant
                j <= n,
                n == was[c as int]@.len(),
                c < CHAINS,
                c == chain_of(key@),
                self.chains@ == was,
                *self == *old(self),
                in_place(was),
                forall|k: int| 0 <= k < j ==> (#[trigger] was[c as int]@[k]).0@ != key@,
                old(self).valid(),
            decreases n - j,
        {
            if self.chains[c][j].0.same(&key) {
                let sum = self.chains[c][j].1.sum(counts);
                let chain = &mut self.chains[c];
                chain.set(j, (key, sum));
                proof {
                    lemma_recounted(was, self.chains@, c as int, j as int, sum);
                    lemma_content(was, c as int, j as int);
                    assert(self@.buckets.dom() =~= old(self)@.buckets.dom());
                }
                return ;
            }
            j = j + 1;
        }
        proof {
            lemma_absent(was, key@);
        }
        if self.held >= MAX_BUCKETS {
            self.dropped = self.dropped.wrapping_add(1);
            return ;
        }
        let chain = &mut self.chains[c];
        chain.push((key, counts));
        self.held = self.held + 1;
        proof {
            lemma_opened(was, self.chains@, c as int, (key, counts));
            assert(self@.buckets.dom() =~= old(self)@.buckets.dom().insert(key@));
        }
    }

    /// One `GET` of a manifest, now.
    ///
    /// A `HEAD` is not a pull and must never be recorded: clients issue `HEAD` then
    /// `GET`, so counting both would double every number.
    pub fn record_manifest_pull(&mut self, repo: &str, tag: Option<&str>, digest: &Digest)
        requires
            old(self).valid(),
        ensures
            final(self).valid(),
            final(self).counts() == old(self).counts(),
            !old(self).counts() ==> final(self)@ == old(self)@,
            old(self).counts() ==> exists|day: u16, hour: u8|
                hour < 24 && final(self)@ == #[trigger] manifest_pulled(
                    old(self)@,
                    repo@,
                    optional_text(tag),
                    *digest,
                    day,
                    hour,
                ),
    {
        if !self.enabled {
            return ;
        }
        let (day, hour) = now_bucket();
        self.record_manifest_pull_at(repo, tag, digest, day, hour);
    }

    /// One `GET` of a manifest, in an hour of a day.
    pub fn record_manifest_pull_at(
        &mut self,
        repo: &str,
        tag: Option<&str>,
        digest: &Digest,
        day: u16,
        hour: u8,
    )
        requires
            old(self).valid(),
        ensures
            final(self).valid(),
            final(self).counts() == old(self).counts(),
            final(self)@ == if old(self).counts() {
                manifest_pulled(old(self)@, repo@, optional_text(tag), *digest, day, hour)
            } else {
                old(self)@
            },
    {
        if !self.enabled {
            return ;
        }
        let counts = Counts { manifest_pulls: 1, blob_pulls: 0, bytes_out: 0 };
        self.tally(
            BucketKey { repo: repo.to_owned(), subject: Subject::Manifest(*digest), day, hour },
            counts,
        );
        if let Some(tag) = tag {
            self.tally(
                BucketKey {
                    repo: repo.to_owned(),
                    subject: Subject::Tag(tag.to_owned()),
                    day,
                    hour,
                },
                counts,
            );
        }
        self.tally(BucketKey { repo: repo.to_owned(), subject: Subject::Repo, day, hour }, counts);
    }

    /// One `GET` of a blob, with the bytes that reached the socket. Repository
    /// scope only: attributing a shared layer's bytes to one manifest would be a
    /// lie. `day` and `hour` are those of the moment when the response started.
    pub fn record_blob_bytes(&mut self, repo: &str, day: u16, hour: u8, bytes: u64)
        requires
            old(self).valid(),
        ensures
            final(self).valid(),
            final(self).counts() == old(self).counts(),
            final(self)@ == if old(self).counts() {
                added(
                    old(self)@,
                    Bucket { repo: repo@, subject: SubjectView::Repo, day, hour },
                    Counts { manifest_pulls: 0, blob_pulls: 1, bytes_out: bytes },
                )
            } else {
                old(self)@
            },
    {
        if !self.enabled {
            return ;
        }
        self.tally(
            BucketKey { repo: repo.to_owned(), subject: Subject::Repo, day, hour },
            Counts { manifest_pulls: 0, blob_pulls: 1, bytes_out: bytes },
        );
    }

    /// Take everything waiting, leaving nothing. What is added afterwards lands in
    /// the next flush.
    pub fn drain(&mut self) -> (r: Vec<Recorded>)
        requires
            old(self).valid(),
        ensures
            final(self).valid(),
            final(self).counts() == old(self).counts(),
            final(self)@ == drained(old(self)@),
            hands_over(r@, old(self)@.buckets),
    {
        let mut chains = no_chains();
        std::mem::swap(&mut chains, &mut self.chains);
        self.held = 0;
        assert(self@.buckets.dom() =~= Set::empty());
        flattened(chains)
    }

    /// Increments dropped since this was last called, and zero it.
    pub fn take_dropped(&mut self) -> (r: u64)
        ensures
            old(self).valid() ==> final(self).valid(),
            final(self).counts() == old(self).counts(),
            r == old(self)@.dropped,
            final(self)@ == dropped_taken(old(self)@),
    {
        let r = self.dropped;
        self.dropped = 0;
        r
    }
}

/// `std::time::SystemTime::now`, in seconds since `UNIX_EPOCH`; a clock before it
/// counts as it. Nothing is claimed of the time.
#[verifier::external_body]
fn clock() -> u64 {
    std::time::SystemTime::now()
        .duration_since(std::time::UNIX_EPOCH)
        .map(|d| d.as_secs())
        .unwrap_or(0)
}

/// The day and the hour of a moment, in UTC.
pub open spec fn bucket_at(secs: u64) -> (u16, u8) {
    (
        if secs / 86_400 > u16::MAX {
            u16::MAX
        } else {
            (secs / 86_400) as u16
        },
        (secs % 86_400 / 3_600) as u8,
    )
}

/// The day and the hour of a moment.
pub fn bucket_of_secs(secs: u64) -> (r: (u16, u8))
    ensures
        r == bucket_at(secs),
        r.1 < 24,
{
    (keys::day_bucket(secs), keys::hour_of_day(secs) as u8)
}

/// The day and the hour of now.
pub fn now_bucket() -> (r: (u16, u8))
    ensures
        exists|secs: u64| r == #[trigger] bucket_at(secs),
        r.1 < 24,
{
    bucket_of_secs(clock())
}

/// The bucket that an increment is for.
pub open spec fn bucket_of(r: Recorded) -> Bucket {
    Bucket { repo: r.repo@, subject: r.subject.deep_view(), day: r.day, hour: r.hour as u8 }
}

/// Whether a list hands over what the buckets hold: each bucket once.
pub open spec fn hands_over(all: Seq<Recorded>, buckets: Map<Bucket, Counts>) -> bool {
    &&& forall|i: int|
        0 <= i < all.len() ==> buckets.contains_key(bucket_of(#[trigger] all[i])) && records(
            all[i],
            bucket_of(all[i]),
            buckets[bucket_of(all[i])],
        )
    &&& forall|i: int, j: int|
        0 <= i < j < all.len() ==> bucket_of(#[trigger] all[i]) != bucket_of(#[trigger] all[j])
    &&& forall|b: Bucket| #[trigger]
        buckets.contains_key(b) ==> exists|i: int|
            0 <= i < all.len() && bucket_of(#[trigger] all[i]) == b
}

/// Where the rows of earlier chains end up in the list of all rows.
spec fn listed(chains: Seq<Chain>, c: int, j: int, all: Seq<Recorded>) -> bool {
    exists|i: int|
        0 <= i < all.len() && bucket_of(#[trigger] all[i]) == chains[c]@[j].0@
}

fn recorded(row: &(BucketKey, Counts)) -> (r: Recorded)
    ensures
        bucket_of(r) == row.0@,
        records(r, row.0@, row.1),
{
    let subject = match &row.0.subject {
        Subject::Manifest(d) => Subject::Manifest(*d),
        Subject::Tag(t) => Subject::Tag(t.as_str().to_owned()),
        Subject::Repo => Subject::Repo,
    };
    Recorded {
        repo: row.0.repo.as_str().to_owned(),
        subject,
        day: row.0.day,
        hour: row.0.hour as usize,
        manifest_pulls: row.1.manifest_pulls,
        blob_pulls: row.1.blob_pulls,
        bytes_out: row.1.bytes_out,
    }
}

/// Whether an increment stems from a row of the first `c` chains, or of the first
/// `j` rows of chain `c`.
spec fn stems(r: Recorded, chains: Seq<Chain>, c: int, j: int) -> bool {
    exists|x: int, y: int|
        0 <= x < chains.len() && 0 <= y < chains[x]@.len() && (x < c || x == c && y < j)
            && bucket_of(r) == (#[trigger] chains[x]@[y]).0@
}

/// The rows of all chains.
fn flattened(chains: Vec<Chain>) -> (all: Vec<Recorded>)
    requires
        in_place(chains@),
    ensures
        hands_over(all@, content(chains@)),
{
    let mut all: Vec<Recorded> = Vec::new();
    let ghost rows = chains@;
    let ghost buckets = content(rows);
    let mut c: usize = 0;
    while c < chains.len()
        invariant
            c <= chains@.len(),
            rows == chains@,
            buckets == content(rows),
            in_place(rows),
            so_far(all@, rows, c as int, 0),
        decreases chains@.len() - c,
    {
        let n = chains[c].len();
        let mut j: usize = 0;
        while j < n
            invariant
                c < chains@.len(),
                j <= n,
                n == rows[c as int]@.len(),
                rows == chains@,
                buckets == content(rows),
                in_place(rows),
                so_far(all@, rows, c as int, j as int),
            decreases n - j,
        {
            let r = recorded(&chains[c][j]);
            proof {
                lemma_so_far(all@, rows, c as int, j as int, r);
            }
            all.push(r);
            j = j + 1;
        }
        proof {
            lemma_next_chain(all@, rows, c as int);
        }
        c = c + 1;
    }
    proof {
        assert forall|b: Bucket| #[trigger] buckets.contains_key(b) implies exists|i: int|
            0 <= i < all@.len() && bucket_of(#[trigger] all@[i]) == b by {
            lemma_chain_bound(b);
            let y = choose|y: int| stands_at(rows, b, y);
            assert(stands_at(rows, b, y));
            assert(listed(rows, chain_of(b) as int, y, all@));
        }
    }
    all
}

/// The list holds the rows of the first `c` chains and the first `j` of the next,
/// each once.
spec fn so_far(all: Seq<Recorded>, chains: Seq<Chain>, c: int, j: int) -> bool {
    &&& forall|i: int|
        0 <= i < all.len() ==> stems(#[trigger] all[i], chains, c, j) && content(
            chains,
        ).contains_key(bucket_of(all[i])) && records(
            all[i],
            bucket_of(all[i]),
            content(chains)[bucket_of(all[i])],
        )
    &&& forall|x: int, y: int|
        0 <= x < chains.len() && 0 <= y < chains[x]@.len() && (x < c || x == c && y < j)
            ==> #[trigger] listed(chains, x, y, all)
    &&& forall|i: int, k: int|
        0 <= i < k < all.len() ==> bucket_of(#[trigger] all[i]) != bucket_of(#[trigger] all[k])
}

proof fn lemma_so_far(all: Seq<Recorded>, chains: Seq<Chain>, c: int, j: int, r: Recorded)
    requires
        in_place(chains),
        0 <= c < chains.len(),
        0 <= j < chains[c]@.len(),
        so_far(all, chains, c, j),
        bucket_of(r) == chains[c]@[j].0@,
        records(r, chains[c]@[j].0@, chains[c]@[j].1),
    ensures
        so_far(all.push(r), chains, c, j + 1),
{
    let now = all.push(r);
    lemma_content(chains, c, j);
    assert forall|i: int| 0 <= i < now.len() implies stems(#[trigger] now[i], chains, c, j + 1)
        && content(chains).contains_key(bucket_of(now[i])) && records(
        now[i],
        bucket_of(now[i]),
        content(chains)[bucket_of(now[i])],
    ) by {
        if i < all.len() {
            assert(stems(all[i], chains, c, j));
            let (x, y) = choose|x: int, y: int|
                0 <= x < chains.len() && 0 <= y < chains[x]@.len() && (x < c || x == c && y < j)
                    && bucket_of(all[i]) == (#[trigger] chains[x]@[y]).0@;
            assert(bucket_of(now[i]) == chains[x]@[y].0@);
        } else {
            assert(bucket_of(now[i]) == chains[c]@[j].0@);
        }
    }
    assert forall|x: int, y: int|
        0 <= x < chains.len() && 0 <= y < chains[x]@.len() && (x < c || x == c && y < j + 1)
            implies #[trigger] listed(chains, x, y, now) by {
        if x == c && y == j {
            assert(bucket_of(now[all.len() as int]) == chains[x]@[y].0@);
        } else {
            assert(listed(chains, x, y, all));
            let i = choose|i: int|
                0 <= i < all.len() && bucket_of(#[trigger] all[i]) == chains[x]@[y].0@;
            assert(bucket_of(now[i]) == chains[x]@[y].0@);
        }
    }
    assert forall|i: int, k: int| 0 <= i < k < now.len() implies bucket_of(#[trigger] now[i])
        != bucket_of(#[trigger] now[k]) by {
        if k == all.len() {
            assert(stems(all[i], chains, c, j));
            let (x, y) = choose|x: int, y: int|
                0 <= x < chains.len() && 0 <= y < chains[x]@.len() && (x < c || x == c && y < j)
                    && bucket_of(all[i]) == (#[trigger] chains[x]@[y]).0@;
            if bucket_of(now[i]) == bucket_of(now[k]) {
                assert(chain_of(chains[x]@[y].0@) == x);
                assert(chain_of(chains[c]@[j].0@) == c);
                assert(chains[c]@[y].0@ != chains[c]@[j].0@);
            }
        } else {
            assert(now[i] == all[i] && now[k] == all[k]);
        }
    }
}

proof fn lemma_next_chain(all: Seq<Recorded>, chains: Seq<Chain>, c: int)
    requires
        0 <= c < chains.len(),
        so_far(all, chains, c, chains[c]@.len() as int),
    ensures
        so_far(all, chains, c + 1, 0),
{
    assert forall|i: int| 0 <= i < all.len() implies stems(#[trigger] all[i], chains, c + 1, 0) by {
        assert(stems(all[i], chains, c, chains[c]@.len() as int));
        let (x, y) = choose|x: int, y: int|
            0 <= x < chains.len() && 0 <= y < chains[x]@.len() && (x < c || x == c && y
                < chains[c]@.len()) && bucket_of(all[i]) == (#[trigger] chains[x]@[y]).0@;
        assert(bucket_of(all[i]) == chains[x]@[y].0@);
    }
}

// --- laws ----------------------------------------------------------------------

/// A bucket that is already there keeps counting, however full the counter is.
pub proof fn a_hot_bucket_is_never_turned_away(w: Waiting, b: Bucket, c: Counts)
    requires
        w.buckets.contains_key(b),
    ensures
        added(w, b, c).buckets.contains_key(b),
        added(w, b, c).buckets[b] == w.buckets[b].plus(c),
        added(w, b, c).dropped == w.dropped,
{
}

/// However much is counted, there are never more buckets than the cap.
pub proof fn buckets_are_capped(w: Waiting, b: Bucket, c: Counts)
    requires
        w.buckets.dom().finite(),
        w.buckets.dom().len() <= MAX_BUCKETS,
    ensures
        added(w, b, c).buckets.dom().finite(),
        added(w, b, c).buckets.dom().len() <= MAX_BUCKETS,
{
    assert(w.buckets.insert(b, c).dom() =~= w.buckets.dom().insert(b));
    if w.buckets.contains_key(b) {
        assert(w.buckets.insert(b, w.buckets[b].plus(c)).dom() =~= w.buckets.dom());
    }
}

/// A pull by tag counts in three scopes, and a pull by digest in two: it must not
/// invent a tag.
pub proof fn a_pull_counts_in_every_scope_it_has(
    repo: Seq<char>,
    tag: Option<Seq<char>>,
    digest: Digest,
    day: u16,
    hour: u8,
)
    ensures
        ({
            let none = Waiting { buckets: Map::empty(), dropped: 0 };
            let after = manifest_pulled(none, repo, tag, digest, day, hour).buckets;
            let by_digest = Bucket { repo, subject: SubjectView::Manifest(digest), day, hour };
            let by_repo = Bucket { repo, subject: SubjectView::Repo, day, hour };
            match tag {
                Some(t) => after == Map::<Bucket, Counts>::empty().insert(
                    by_digest,
                    one_manifest(),
                ).insert(
                    Bucket { repo, subject: SubjectView::Tag(t), day, hour },
                    one_manifest(),
                ).insert(by_repo, one_manifest()),
                None => after == Map::<Bucket, Counts>::empty().insert(
                    by_digest,
                    one_manifest(),
                ).insert(by_repo, one_manifest()),
            }
        }),
{
    let none = Map::<Bucket, Counts>::empty();
    let by_digest = Bucket { repo, subject: SubjectView::Manifest(digest), day, hour };
    let one = none.insert(by_digest, one_manifest());
    assert(one.dom() =~= none.dom().insert(by_digest));
    if let Some(t) = tag {
        let by_tag = Bucket { repo, subject: SubjectView::Tag(t), day, hour };
        let two = one.insert(by_tag, one_manifest());
        assert(two.dom() =~= one.dom().insert(by_tag));
    }
}

} // verus!
