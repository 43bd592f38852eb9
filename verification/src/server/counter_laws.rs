//! What holds of the pull counts over a run of pulls.
use vstd::prelude::*;

use crate::digest::Digest;
use crate::server::counters::{
    added, bucket_at, bucket_of, buckets_are_capped, drained, dropped_taken, hands_over, manifest_pulled,
    one_manifest, Bucket, Counts, Recorded, SubjectView, Waiting, MAX_BUCKETS,
};

verus! {

/// One pull of a manifest: of which repository, by which tag, and when.
pub struct ManifestPull {
    pub repo: Seq<char>,
    pub tag: Option<Seq<char>>,
    pub digest: Digest,
    pub day: u16,
    pub hour: u8,
}

/// A counter that has counted nothing.
pub open spec fn fresh() -> Waiting {
    Waiting { buckets: Map::empty(), dropped: 0 }
}

/// What waits after a run of pulls.
pub open spec fn after_pulls(w: Waiting, pulls: Seq<ManifestPull>) -> Waiting
    decreases pulls.len(),
{
    if pulls.len() == 0 {
        w
    } else {
        let p = pulls.last();
        manifest_pulled(after_pulls(w, pulls.drop_last()), p.repo, p.tag, p.digest, p.day, p.hour)
    }
}

/// How many increments a run of pulls makes: three for a pull by tag, two for one
/// by digest.
pub open spec fn increments(pulls: Seq<ManifestPull>) -> nat
    decreases pulls.len(),
{
    if pulls.len() == 0 {
        0
    } else {
        increments(pulls.drop_last()) + if pulls.last().tag is Some {
            3nat
        } else {
            2nat
        }
    }
}

/// The manifest pulls of some rows.
pub open spec fn rows_total(rows: Seq<Recorded>) -> nat
    decreases rows.len(),
{
    if rows.len() == 0 {
        0
    } else {
        rows_total(rows.drop_last()) + rows.last().manifest_pulls as nat
    }
}

/// The manifest pulls of some buckets.
spec fn buckets_total(m: Map<Bucket, Counts>) -> nat
    decreases m.dom().len(),
{
    if m.dom().finite() && m.dom().len() > 0 {
        let b = m.dom().choose();
        m[b].manifest_pulls as nat + buckets_total(m.remove(b))
    } else {
        0
    }
}

/// Any bucket may be taken out of the total first.
proof fn lemma_total_without(m: Map<Bucket, Counts>, b: Bucket)
    requires
        m.dom().finite(),
        m.contains_key(b),
    ensures
        buckets_total(m) == m[b].manifest_pulls as nat + buckets_total(m.remove(b)),
    decreases m.dom().len(),
{
    let c = m.dom().choose();
    if c != b {
        lemma_total_without(m.remove(c), b);
        lemma_total_without(m.remove(b), c);
        assert(m.remove(c).remove(b) =~= m.remove(b).remove(c));
    }
}

/// Rows that hand over some buckets have their total, and their number.
proof fn lemma_rows_total(rows: Seq<Recorded>, m: Map<Bucket, Counts>)
    requires
        m.dom().finite(),
        hands_over(rows, m),
    ensures
        rows_total(rows) == buckets_total(m),
        rows.len() == m.dom().len(),
    decreases rows.len(),
{
    if rows.len() == 0 {
        assert forall|b: Bucket| !m.dom().contains(b) by {
            if m.contains_key(b) {
                let i = choose|i: int| 0 <= i < rows.len() && bucket_of(#[trigger] rows[i]) == b;
            }
        }
        assert(m.dom() =~= Set::empty());
    } else {
        let head = rows.drop_last();
        let n = rows.len() - 1;
        let b = bucket_of(rows[n]);
        let rest = m.remove(b);
        assert forall|i: int| 0 <= i < head.len() implies rest.contains_key(
            bucket_of(#[trigger] head[i]),
        ) by {
            assert(head[i] == rows[i]);
            assert(bucket_of(rows[i]) != bucket_of(rows[n]));
        }
        assert forall|i: int, j: int| 0 <= i < j < head.len() implies bucket_of(#[trigger] head[i])
            != bucket_of(#[trigger] head[j]) by {
            assert(head[i] == rows[i] && head[j] == rows[j]);
        }
        assert forall|x: Bucket| #[trigger] rest.contains_key(x) implies exists|i: int|
            0 <= i < head.len() && bucket_of(#[trigger] head[i]) == x by {
            assert(m.contains_key(x));
            let i = choose|i: int| 0 <= i < rows.len() && bucket_of(#[trigger] rows[i]) == x;
            assert(head[i] == rows[i]);
        }
        lemma_rows_total(head, rest);
        lemma_total_without(m, b);
    }
}

/// Nothing is lost so far: what is held and what was turned away come to `n`, and
/// only manifests were counted.
spec fn balances(w: Waiting, n: nat) -> bool {
    &&& w.buckets.dom().finite()
    &&& w.buckets.dom().len() <= MAX_BUCKETS
    &&& buckets_total(w.buckets) + w.dropped == n
    &&& forall|b: Bucket| #[trigger]
        w.buckets.contains_key(b) ==> w.buckets[b].blob_pulls == 0 && w.buckets[b].bytes_out == 0
}

/// One more increment.
proof fn lemma_balances(w: Waiting, b: Bucket, n: nat)
    requires
        balances(w, n),
        n < u64::MAX,
    ensures
        balances(added(w, b, one_manifest()), n + 1),
{
    let one = one_manifest();
    let m = w.buckets;
    buckets_are_capped(w, b, one);
    if m.contains_key(b) {
        let now = m.insert(b, m[b].plus(one));
        lemma_total_without(m, b);
        assert(now.dom() =~= m.dom());
        lemma_total_without(now, b);
        assert(now.remove(b) =~= m.remove(b));
    } else if m.dom().len() < MAX_BUCKETS {
        let now = m.insert(b, one);
        assert(now.dom() =~= m.dom().insert(b));
        lemma_total_without(now, b);
        assert(now.remove(b) =~= m);
    }
}

proof fn lemma_run_balances(pulls: Seq<ManifestPull>)
    requires
        increments(pulls) <= u64::MAX,
    ensures
        balances(after_pulls(fresh(), pulls), increments(pulls)),
    decreases pulls.len(),
{
    if pulls.len() == 0 {
        assert(Map::<Bucket, Counts>::empty().dom() =~= Set::empty());
    } else {
        let head = pulls.drop_last();
        let ManifestPull { repo, tag, digest, day, hour } = pulls.last();
        lemma_run_balances(head);
        let w = after_pulls(fresh(), head);
        let n = increments(head);
        let by_digest = Bucket { repo, subject: SubjectView::Manifest(digest), day, hour };
        let by_repo = Bucket { repo, subject: SubjectView::Repo, day, hour };
        lemma_balances(w, by_digest, n);
        let x = added(w, by_digest, one_manifest());
        match tag {
            Some(t) => {
                let by_tag = Bucket { repo, subject: SubjectView::Tag(t), day, hour };
                lemma_balances(x, by_tag, n + 1);
                lemma_balances(added(x, by_tag, one_manifest()), by_repo, n + 2);
            },
            None => {
                lemma_balances(x, by_repo, n + 1);
            },
        }
    }
}

/// How many of some pulls were by tag.
pub open spec fn by_tag(pulls: Seq<ManifestPull>) -> nat {
    pulls.filter(|p: ManifestPull| p.tag is Some).len()
}

proof fn lemma_increments(pulls: Seq<ManifestPull>)
    ensures
        by_tag(pulls) <= pulls.len(),
        increments(pulls) == 3 * by_tag(pulls) + 2 * (pulls.len() - by_tag(pulls)),
    decreases pulls.len(),
{
    reveal(Seq::filter);
    if pulls.len() > 0 {
        lemma_increments(pulls.drop_last());
    }
}

/// A counter loses nothing. After a run of manifest pulls on a fresh counter, what
/// it hands over and what it says it turned away come to three for each pull by tag
/// and two for each pull by digest, as long as that number fits a tally. What it
/// hands over is at most the cap's number of rows, no two of the same repository,
/// subject, day and hour, and counts manifests only.
pub proof fn a_counter_loses_nothing(pulls: Seq<ManifestPull>, rows: Seq<Recorded>)
    requires
        3 * by_tag(pulls) + 2 * (pulls.len() - by_tag(pulls)) <= u64::MAX,
        hands_over(rows, after_pulls(fresh(), pulls).buckets),
    ensures
        rows_total(rows) + after_pulls(fresh(), pulls).dropped == 3 * by_tag(pulls) + 2 * (
        pulls.len() - by_tag(pulls)),
        rows.len() <= MAX_BUCKETS,
        forall|i: int, j: int|
            0 <= i < j < rows.len() ==> ((#[trigger] rows[i]).repo@ != (#[trigger] rows[j]).repo@
                || rows[i].subject.deep_view() != rows[j].subject.deep_view() || rows[i].day
                != rows[j].day || rows[i].hour != rows[j].hour),
        forall|i: int|
            0 <= i < rows.len() ==> (#[trigger] rows[i]).blob_pulls == 0 && rows[i].bytes_out == 0,
{
    let w = after_pulls(fresh(), pulls);
    lemma_increments(pulls);
    lemma_run_balances(pulls);
    lemma_rows_total(rows, w.buckets);
    assert forall|i: int| 0 <= i < rows.len() implies (#[trigger] rows[i]).blob_pulls == 0
        && rows[i].bytes_out == 0 by {
        assert(w.buckets.contains_key(bucket_of(rows[i])));
    }
    assert forall|i: int, j: int| 0 <= i < j < rows.len() implies ((#[trigger] rows[i]).repo@ != (
    #[trigger] rows[j]).repo@ || rows[i].subject.deep_view() != rows[j].subject.deep_view()
        || rows[i].day != rows[j].day || rows[i].hour != rows[j].hour) by {
        assert(bucket_of(rows[i]) != bucket_of(rows[j]));
    }
}

/// What was handed over is not handed over again: a second drain is empty, and a
/// second tally of what was turned away is nothing.
pub proof fn nothing_is_handed_over_twice(w: Waiting, again: Seq<Recorded>)
    requires
        hands_over(again, drained(w).buckets),
    ensures
        again.len() == 0,
        dropped_taken(w).dropped == 0,
{
    if again.len() > 0 {
        assert(Map::<Bucket, Counts>::empty().contains_key(bucket_of(again[0])));
    }
}

/// An increment is added to its own bucket, number by number, and touches no other: while
/// there is room, or the bucket is there already, nothing is turned away; once there is
/// no room, a new bucket is turned away and that is counted.
pub proof fn an_increment_lands_in_its_bucket(w: Waiting, b: Bucket, c: Counts, other: Bucket)
    requires
        w.buckets.dom().finite(),
    ensures
        ({
            let after = added(w, b, c);
            let full = w.buckets.dom().len() >= MAX_BUCKETS;
            &&& other != b ==> after.buckets.contains_key(other) == w.buckets.contains_key(other)
            &&& other != b && w.buckets.contains_key(other) ==> after.buckets[other]
                == w.buckets[other]
            &&& !w.buckets.contains_key(b) && !full ==> after.buckets.contains_key(b)
                && after.buckets[b] == c && after.dropped == w.dropped
            &&& !w.buckets.contains_key(b) && full ==> !after.buckets.contains_key(b) && (w.dropped
                < u64::MAX ==> after.dropped == w.dropped + 1)
            &&& w.buckets.contains_key(b) ==> after.buckets.contains_key(b) && after.dropped
                == w.dropped
            &&& w.buckets.contains_key(b) && w.buckets[b].manifest_pulls + c.manifest_pulls
                <= u64::MAX ==> after.buckets[b].manifest_pulls == w.buckets[b].manifest_pulls
                + c.manifest_pulls
            &&& w.buckets.contains_key(b) && w.buckets[b].blob_pulls + c.blob_pulls <= u64::MAX
                ==> after.buckets[b].blob_pulls == w.buckets[b].blob_pulls + c.blob_pulls
            &&& w.buckets.contains_key(b) && w.buckets[b].bytes_out + c.bytes_out <= u64::MAX
                ==> after.buckets[b].bytes_out == w.buckets[b].bytes_out + c.bytes_out
            &&& w.buckets.contains_key(b) && w.buckets[b].bytes_out + c.bytes_out > u64::MAX
                ==> after.buckets[b].bytes_out == u64::MAX
        }),
{
}

/// While there is room, a pull of a manifest adds one to the manifest's count in that
/// hour, one to the repository's, one to the tag's where it was asked for by tag, and
/// nothing anywhere else: no other hour, tag, manifest or repository, and no blob.
#[verifier::rlimit(40)]
pub proof fn a_pull_is_counted_once_in_each_place(
    w: Waiting,
    repo: Seq<char>,
    tag: Option<Seq<char>>,
    digest: Digest,
    day: u16,
    hour: u8,
    b: Bucket,
)
    requires
        w.buckets.dom().finite(),
        w.buckets.dom().len() + 3 <= MAX_BUCKETS,
        w.buckets.contains_key(b) ==> w.buckets[b].manifest_pulls < u64::MAX,
    ensures
        ({
            let after = manifest_pulled(w, repo, tag, digest, day, hour);
            let meant = b.repo == repo && b.day == day && b.hour == hour && (b.subject
                == SubjectView::Repo || b.subject == SubjectView::Manifest(digest) || (
            tag matches Some(t) && b.subject == SubjectView::Tag(t)));
            let was = if w.buckets.contains_key(b) {
                w.buckets[b]
            } else {
                (Counts { manifest_pulls: 0, blob_pulls: 0, bytes_out: 0 })
            };
            &&& after.dropped == w.dropped
            &&& after.buckets.contains_key(b) == (meant || w.buckets.contains_key(b))
            &&& meant ==> after.buckets[b].manifest_pulls == was.manifest_pulls + 1
            &&& meant ==> after.buckets[b].blob_pulls == was.blob_pulls
            &&& meant ==> after.buckets[b].bytes_out == was.bytes_out
            &&& !meant && w.buckets.contains_key(b) ==> after.buckets[b] == was
        }),
{
    let x = Bucket { repo, subject: SubjectView::Manifest(digest), day, hour };
    let z = Bucket { repo, subject: SubjectView::Repo, day, hour };
    let one = added(w, x, one_manifest());
    assert(one.buckets.dom() =~= w.buckets.dom().insert(x));
    if let Some(t) = tag {
        let y = Bucket { repo, subject: SubjectView::Tag(t), day, hour };
        let two = added(one, y, one_manifest());
        assert(two.buckets.dom() =~= one.buckets.dom().insert(y));
    }
}

/// A moment's hour is the whole hours since midnight, and its day the whole days since
/// the beginning of time, as far as sixteen bits can say.
pub proof fn a_moment_is_in_its_day_and_hour(day: nat, hour: nat, second: nat)
    requires
        day <= u16::MAX,
        hour < 24,
        second < 3600,
    ensures
        bucket_at((day * 86_400 + hour * 3600 + second) as u64) == (day as u16, hour as u8),
{
    let s = (day * 86_400 + hour * 3600 + second) as u64;
    assert(s == day * 86_400 + hour * 3600 + second);
    assert(s / 86_400 == day);
    assert(s % 86_400 == hour * 3600 + second);
    assert((s % 86_400) / 3600 == hour);
}

} // verus!
