//! Values stored against the keys in [`crate::keys`].
//!
//! Records hold only bounded, fan-out data. Anything with unbounded fan-in lives
//! in its own key range instead, so no value grows with the size of the
//! registry.
use vstd::prelude::*;

use crate::digest::Digest;

verus! {

pub type RepoId = u32;

/// A platform's operating system, architecture and variant.
pub type PlatformView = (Seq<char>, Seq<char>, Option<Seq<char>>);

/// Annotations, key and value.
pub type AnnotationsView = Seq<(Seq<char>, Seq<char>)>;

/// What a manifest record says.
#[verifier::ext_equal]
pub struct ManifestView {
    pub repo: RepoId,
    pub digest: Digest,
    pub media_type: Seq<char>,
    pub size: u64,
    pub total_layer_size: u64,
    pub platform: Option<PlatformView>,
    pub layers: Seq<Digest>,
    pub children: Seq<(Digest, Option<PlatformView>)>,
    pub subject: Option<Digest>,
    pub artifact_type: Option<Seq<char>>,
    pub annotations: AnnotationsView,
    pub pushed_at: u64,
}

/// What a referrer edge says.
#[verifier::ext_equal]
pub struct ReferrerView {
    pub media_type: Seq<char>,
    pub artifact_type: Option<Seq<char>>,
    pub size: u64,
    pub annotations: AnnotationsView,
}

#[derive(Debug, Clone, PartialEq, Eq)]
pub struct Platform {
    pub os: String,
    pub arch: String,
    pub variant: Option<String>,
}

#[derive(Debug, Clone, PartialEq, Eq)]
pub struct ChildRef {
    pub digest: Digest,
    pub platform: Option<Platform>,
}

#[derive(Debug, Clone, PartialEq, Eq)]
pub struct ManifestRef {
    pub repo: RepoId,
    pub digest: Digest,
}

#[derive(Debug, Clone, PartialEq, Eq)]
pub struct ManifestRecord {
    pub repo: RepoId,
    pub digest: Digest,
    pub media_type: String,
    /// Size of the manifest document itself, for the `Content-Length` on HEAD.
    pub size: u64,
    /// Sum of this manifest's own layer sizes. Not recursive: an index's total
    /// is computed by walking children, deduplicating shared layers.
    pub total_layer_size: u64,
    pub platform: Option<Platform>,
    /// Layers plus config - the blobs this manifest directly references.
    pub layers: Vec<Digest>,
    /// Per-platform manifests, for an index. Empty for an image manifest.
    pub children: Vec<ChildRef>,
    /// OCI 1.1 subject, if this manifest refers to another.
    pub subject: Option<Digest>,
    /// The artifact type a referrers listing shows.
    pub artifact_type: Option<String>,
    /// Annotations of the document, in key order.
    pub annotations: Vec<(String, String)>,
    /// Unix seconds.
    pub pushed_at: u64,
}

#[derive(Debug, Clone, Copy, PartialEq, Eq, Structural)]
pub struct BlobRecord {
    pub size: u64,
}

/// A blob's membership of a repo.
#[derive(Debug, Clone, Copy, PartialEq, Eq, Structural)]
pub struct RepoBlobRecord {
    pub size: u64,
    /// Unix seconds.
    pub added_at: u64,
}

/// What a referrer edge carries: the descriptor that a listing shows.
#[derive(Debug, Clone, PartialEq, Eq)]
pub struct ReferrerRecord {
    pub media_type: String,
    pub artifact_type: Option<String>,
    pub size: u64,
    /// Annotations of the document, in key order.
    pub annotations: Vec<(String, String)>,
}

/// What happened to a tag.
#[derive(Debug, Clone, Copy, PartialEq, Eq, Structural)]
pub enum TagEventKind {
    Created,
    Deleted,
}

/// One event of a tag's history.
#[derive(Debug, Clone, PartialEq, Eq)]
pub struct TagEvent {
    pub event: TagEventKind,
    /// The manifest's media type and size at the time of the event.
    pub media_type: String,
    pub size: u64,
}

/// An in-progress chunked blob upload.
#[derive(Debug, Clone, PartialEq, Eq)]
pub struct UploadSession {
    pub repo: RepoId,
    /// Bytes committed so far; the next chunk must start here.
    pub offset: u64,
    /// Unix seconds. Purge uses this to expire abandoned uploads, and to avoid
    /// deleting a blob that an active upload is about to reference.
    pub started_at: u64,
    pub updated_at: u64,
    /// The algorithm the client announced.
    pub algorithm: String,
    /// The hasher at `offset`, so that any process can resume the upload.
    pub hasher_state: Option<Vec<u8>>,
}

pub const HOURS_PER_DAY: usize = 24;

/// A day's counters, hour by hour.
#[derive(Debug, Clone, PartialEq, Eq)]
pub struct CounterBucket {
    pub manifest_pulls: [u32; 24],
    pub blob_pulls: [u32; 24],
    pub bytes_out: [u64; 24],
}

/// `count` more of something counted in 32 bits, held at the top.
pub open spec fn add_u32(have: u32, count: int) -> u32 {
    if have + count > u32::MAX {
        u32::MAX
    } else {
        (have + count) as u32
    }
}

/// `count` more of something counted in 64 bits, held at the top.
pub open spec fn add_u64(have: u64, count: int) -> u64 {
    if have + count > u64::MAX {
        u64::MAX
    } else {
        (have + count) as u64
    }
}

impl DeepView for Platform {
    type V = PlatformView;

    open spec fn deep_view(&self) -> PlatformView {
        (self.os@, self.arch@, self.variant.deep_view())
    }
}

impl DeepView for ChildRef {
    type V = (Digest, Option<PlatformView>);

    open spec fn deep_view(&self) -> (Digest, Option<PlatformView>) {
        (self.digest, self.platform.deep_view())
    }
}

impl DeepView for ManifestRecord {
    type V = ManifestView;

    open spec fn deep_view(&self) -> ManifestView {
        ManifestView {
            repo: self.repo,
            digest: self.digest,
            media_type: self.media_type@,
            size: self.size,
            total_layer_size: self.total_layer_size,
            platform: self.platform.deep_view(),
            layers: self.layers@,
            children: self.children.deep_view(),
            subject: self.subject,
            artifact_type: self.artifact_type.deep_view(),
            annotations: self.annotations.deep_view(),
            pushed_at: self.pushed_at,
        }
    }
}

impl DeepView for ReferrerRecord {
    type V = ReferrerView;

    open spec fn deep_view(&self) -> ReferrerView {
        ReferrerView {
            media_type: self.media_type@,
            artifact_type: self.artifact_type.deep_view(),
            size: self.size,
            annotations: self.annotations.deep_view(),
        }
    }
}

impl DeepView for CounterBucket {
    type V = BucketView;

    open spec fn deep_view(&self) -> BucketView {
        self@
    }
}

/// A bucket's three series.
pub type BucketView = (Seq<u32>, Seq<u32>, Seq<u64>);

/// The bucket with nothing counted.
pub open spec fn empty_bucket() -> BucketView {
    (
        Seq::new(24, |i: int| 0u32),
        Seq::new(24, |i: int| 0u32),
        Seq::new(24, |i: int| 0u64),
    )
}

/// A bucket with some more counted in one hour. An hour that no day has is not
/// counted.
pub open spec fn bucket_plus(
    b: BucketView,
    hour: int,
    manifest_pulls: int,
    blob_pulls: int,
    bytes_out: int,
) -> BucketView {
    if 0 <= hour < 24 {
        (
            b.0.update(hour, add_u32(b.0[hour], manifest_pulls)),
            b.1.update(hour, add_u32(b.1[hour], blob_pulls)),
            b.2.update(hour, add_u64(b.2[hour], bytes_out)),
        )
    } else {
        b
    }
}

/// Two buckets summed hour by hour.
pub open spec fn bucket_sum(a: BucketView, b: BucketView) -> BucketView {
    (
        Seq::new(24, |i: int| add_u32(a.0[i], b.0[i] as int)),
        Seq::new(24, |i: int| add_u32(a.1[i], b.1[i] as int)),
        Seq::new(24, |i: int| add_u64(a.2[i], b.2[i] as int)),
    )
}

/// The sum of a series, held at the top.
pub open spec fn series_sum(s: Seq<u64>) -> nat
    decreases s.len(),
{
    if s.len() == 0 {
        0
    } else {
        series_sum(s.drop_last()) + s.last() as nat
    }
}

impl View for CounterBucket {
    type V = BucketView;

    open spec fn view(&self) -> BucketView {
        (self.manifest_pulls@, self.blob_pulls@, self.bytes_out@)
    }
}

impl Default for CounterBucket {
    fn default() -> (r: Self)
        ensures
            r@ == empty_bucket(),
    {
        let r = CounterBucket {
            manifest_pulls: [0u32; 24],
            blob_pulls: [0u32; 24],
            bytes_out: [0u64; 24],
        };
        assert(r@.0 =~= empty_bucket().0);
        assert(r@.1 =~= empty_bucket().1);
        assert(r@.2 =~= empty_bucket().2);
        r
    }
}

fn plus_u32(have: u32, count: u64) -> (r: u32)
    ensures
        r == add_u32(have, count as int),
{
    if count > (u32::MAX - have) as u64 {
        u32::MAX
    } else {
        have + count as u32
    }
}

impl CounterBucket {
    /// Count some more in one hour.
    pub fn add(&mut self, hour: usize, manifest_pulls: u64, blob_pulls: u64, bytes_out: u64)
        ensures
            final(self)@ == bucket_plus(
                old(self)@,
                hour as int,
                manifest_pulls as int,
                blob_pulls as int,
                bytes_out as int,
            ),
    {
        if hour < HOURS_PER_DAY {
            let ghost before = self@;
            self.manifest_pulls[hour] = plus_u32(self.manifest_pulls[hour], manifest_pulls);
            self.blob_pulls[hour] = plus_u32(self.blob_pulls[hour], blob_pulls);
            self.bytes_out[hour] = self.bytes_out[hour].saturating_add(bytes_out);
            proof {
                let after = bucket_plus(
                    before,
                    hour as int,
                    manifest_pulls as int,
                    blob_pulls as int,
                    bytes_out as int,
                );
                assert(self@.0 =~= after.0);
                assert(self@.1 =~= after.1);
                assert(self@.2 =~= after.2);
            }
        }
    }

    /// Add another bucket of the same day, hour by hour.
    pub fn merge(&mut self, other: &CounterBucket)
        ensures
            final(self)@ == bucket_sum(old(self)@, other@),
    {
        let ghost before = self@;
        let mut hour: usize = 0;
        while hour < HOURS_PER_DAY
            invariant
                hour <= 24,
                before.0.len() == 24,
                before.1.len() == 24,
                before.2.len() == 24,
                forall|i: int|
                    0 <= i < 24 ==> self@.0[i] == if i < hour {
                        bucket_sum(before, other@).0[i]
                    } else {
                        before.0[i]
                    },
                forall|i: int|
                    0 <= i < 24 ==> self@.1[i] == if i < hour {
                        bucket_sum(before, other@).1[i]
                    } else {
                        before.1[i]
                    },
                forall|i: int|
                    0 <= i < 24 ==> self@.2[i] == if i < hour {
                        bucket_sum(before, other@).2[i]
                    } else {
                        before.2[i]
                    },
            decreases 24 - hour,
        {
            self.add(
                hour,
                other.manifest_pulls[hour] as u64,
                other.blob_pulls[hour] as u64,
                other.bytes_out[hour],
            );
            hour += 1;
        }
        proof {
            assert(self@.0 =~= bucket_sum(before, other@).0);
            assert(self@.1 =~= bucket_sum(before, other@).1);
            assert(self@.2 =~= bucket_sum(before, other@).2);
        }
    }

    /// The day's manifest pulls.
    pub fn manifest_pulls_total(&self) -> (r: u64)
        ensures
            r == series_sum(Seq::new(24, |i: int| self@.0[i] as u64)),
    {
        total_u32(&self.manifest_pulls)
    }

    /// The day's blob pulls.
    pub fn blob_pulls_total(&self) -> (r: u64)
        ensures
            r == series_sum(Seq::new(24, |i: int| self@.1[i] as u64)),
    {
        total_u32(&self.blob_pulls)
    }

    /// The day's bytes, as far as a `u64` can say.
    pub fn bytes_out_total(&self) -> (r: u64)
        ensures
            r == if series_sum(self@.2) > u64::MAX {
                u64::MAX as nat
            } else {
                series_sum(self@.2)
            },
    {
        let ghost s = self@.2;
        let mut total: u64 = 0;
        let mut i: usize = 0;
        while i < HOURS_PER_DAY
            invariant
                i <= 24,
                s == self@.2,
                s.len() == 24,
                total == if series_sum(s.subrange(0, i as int)) > u64::MAX {
                    u64::MAX as nat
                } else {
                    series_sum(s.subrange(0, i as int))
                },
            decreases 24 - i,
        {
            total = total.saturating_add(self.bytes_out[i]);
            assert(s.subrange(0, i + 1).drop_last() =~= s.subrange(0, i as int));
            i += 1;
        }
        assert(s.subrange(0, 24) =~= s);
        total
    }
}

fn total_u32(series: &[u32; 24]) -> (r: u64)
    ensures
        r == series_sum(Seq::new(24, |i: int| series@[i] as u64)),
{
    let ghost s = Seq::new(24, |i: int| series@[i] as u64);
    let mut total: u64 = 0;
    let mut i: usize = 0;
    while i < HOURS_PER_DAY
        invariant
            i <= 24,
            s == Seq::new(24, |i: int| series@[i] as u64),
            total == series_sum(s.subrange(0, i as int)),
            total <= i * u32::MAX,
        decreases 24 - i,
    {
        total = total + series[i] as u64;
        assert(s.subrange(0, i + 1).drop_last() =~= s.subrange(0, i as int));
        i += 1;
    }
    assert(s.subrange(0, 24) =~= s);
    total
}

/// Counting touches the one hour it is about, and there adds what it says, up to the
/// largest number that fits. Every other hour keeps what it held.
pub proof fn counting_touches_one_hour(
    b: BucketView,
    hour: int,
    manifest_pulls: nat,
    blob_pulls: nat,
    bytes_out: nat,
    h: int,
)
    requires
        b.0.len() == 24,
        b.1.len() == 24,
        b.2.len() == 24,
        0 <= h < 24,
    ensures
        ({
            let after = bucket_plus(
                b,
                hour,
                manifest_pulls as int,
                blob_pulls as int,
                bytes_out as int,
            );
            &&& h != hour ==> after.0[h] == b.0[h] && after.1[h] == b.1[h] && after.2[h] == b.2[h]
            &&& h == hour && b.0[h] + manifest_pulls <= u32::MAX ==> after.0[h] == b.0[h]
                + manifest_pulls
            &&& h == hour && b.1[h] + blob_pulls <= u32::MAX ==> after.1[h] == b.1[h] + blob_pulls
            &&& h == hour && b.2[h] + bytes_out <= u64::MAX ==> after.2[h] == b.2[h] + bytes_out
            &&& h == hour && b.0[h] + manifest_pulls > u32::MAX ==> after.0[h] == u32::MAX
            &&& h == hour && b.1[h] + blob_pulls > u32::MAX ==> after.1[h] == u32::MAX
            &&& h == hour && b.2[h] + bytes_out > u64::MAX ==> after.2[h] == u64::MAX
        }),
{
}

/// Merging adds hour to hour, up to the largest number that fits, and merging with a day
/// on which nothing was counted changes nothing.
pub proof fn merging_adds_hour_to_hour(a: BucketView, b: BucketView, h: int)
    requires
        a.0.len() == 24,
        a.1.len() == 24,
        a.2.len() == 24,
        0 <= h < 24,
    ensures
        a.0[h] + b.0[h] <= u32::MAX ==> bucket_sum(a, b).0[h] == a.0[h] + b.0[h],
        a.1[h] + b.1[h] <= u32::MAX ==> bucket_sum(a, b).1[h] == a.1[h] + b.1[h],
        a.2[h] + b.2[h] <= u64::MAX ==> bucket_sum(a, b).2[h] == a.2[h] + b.2[h],
        a.0[h] + b.0[h] > u32::MAX ==> bucket_sum(a, b).0[h] == u32::MAX,
        a.1[h] + b.1[h] > u32::MAX ==> bucket_sum(a, b).1[h] == u32::MAX,
        a.2[h] + b.2[h] > u64::MAX ==> bucket_sum(a, b).2[h] == u64::MAX,
        bucket_sum(a, empty_bucket()) == a,
{
    let same = bucket_sum(a, empty_bucket());
    assert(same.0 =~= a.0);
    assert(same.1 =~= a.1);
    assert(same.2 =~= a.2);
}

/// A day's total is what its hours add up to: a day without counts totals nothing, and
/// what one hour gains or loses the total gains or loses.
pub proof fn a_total_moves_with_each_hour(s: Seq<u64>, i: int, v: u64, n: nat)
    requires
        0 <= i < s.len(),
    ensures
        series_sum(Seq::new(n, |k: int| 0u64)) == 0,
        series_sum(s.update(i, v)) + s[i] == series_sum(s) + v,
    decreases s.len() + n,
{
    let zeros = Seq::new(n, |k: int| 0u64);
    if n > 0 {
        let fewer = Seq::new((n - 1) as nat, |k: int| 0u64);
        assert(zeros.drop_last() =~= fewer);
        a_total_moves_with_each_hour(s, i, v, (n - 1) as nat);
    } else {
        assert(zeros =~= Seq::<u64>::empty());
        if i < s.len() - 1 {
            assert(s.update(i, v).drop_last() =~= s.drop_last().update(i, v));
            a_total_moves_with_each_hour(s.drop_last(), i, v, 0);
        } else {
            assert(s.update(i, v).drop_last() =~= s.drop_last());
        }
    }
}

} // verus!
