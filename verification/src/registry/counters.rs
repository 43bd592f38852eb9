//! Pull counts, written and read.
//!
//! The one place where a stored value is read, added to, and written back. The
//! fold happens *before* the batch is built, so what lands in the log is a plain
//! `Put` of an absolute value.
//!
//! - **They are best-effort.** Increments live in memory between flushes.
//! - **One writer owns the range.** Absolute values are last-write-wins. The shard
//!   is reserved for the writing node's id and is `0` today; the read path sums
//!   across shards so that adding one later is not a migration.
//! - **A bucket is a day, broken down by hour, fixed in UTC at write time.**
use vstd::prelude::*;
use vstd::utf8::*;

use crate::bytes::{
    bytes_eq, bytes_lt, lex_asymmetric, lex_irreflexive, lex_lt, lex_total, lex_transitive,
};
use crate::digest::{encoded_digest_is_injective, Digest};
use crate::keys::{
    counter, counter_key, counter_suffix, counter_suffix_reads_the_key, counter_suffix_of,
    counters_from_day, counters_from_day_key, counters_from_day_starts_the_window,
    counters_of_manifest, counters_of_manifest_key, counters_of_repo, counters_of_repo_key,
    counters_of_tag, counters_of_tag_key, repo_bytes, repo_bytes_injective,
};
use crate::meta::engine::{
    applied, applied_by_last_word, in_range, last_word, lemma_listing, listing, lookup, ordered,
    page_entries, table, Entry, MetaEngine, OpView, WriteBatch,
};
use crate::registry::codec::{counters_bytes, counters_wire, decode_bucket, encode_bucket};
use crate::registry::error::{answers, corrupt, seen, Fault, RegistryError, Result};
use crate::registry::registry::{as_bytes, repo_lookup, shown, Registry};
use crate::types::{bucket_plus, bucket_sum, empty_bucket, BucketView, CounterBucket, RepoId};

verus! {

/// Which counter a pull belongs to.
///
/// Every granularity that will be queried has to be maintained on write: rolling
/// repo totals up out of per-manifest buckets would be an unbounded read.
#[derive(Debug, Clone, PartialEq, Eq, PartialOrd, Ord)]
pub enum CountSubject {
    /// `A m <repo> <digest>` - the per-manifest wall, the headline query.
    Manifest(Digest),
    /// `A t <repo> <tag>` - which tags people actually pull.
    Tag(String),
    /// `A r <repo>` - repo totals, and the only scope carrying blob traffic.
    Repo,
}

/// One flush entry: what to add, and where.
///
/// `day` and `hour` are the whole time coordinate, computed when the pull was
/// served rather than when the flush runs.
#[derive(Debug, Clone, PartialEq, Eq)]
pub struct CountDelta {
    pub repo: String,
    pub subject: CountSubject,
    pub day: u16,
    pub hour: usize,
    pub manifest_pulls: u64,
    pub blob_pulls: u64,
    pub bytes_out: u64,
}

/// One day of counters, with the shards already summed.
#[derive(Debug, Clone, PartialEq, Eq)]
pub struct CountDay {
    pub day: u16,
    pub bucket: CounterBucket,
}

/// The shard written by a single node. Reserved rather than used.
pub const SHARD: u16 = 0;

/// How many shards a day-windowed scan is willing to walk per day.
pub const SHARD_SCAN_SLACK: usize = 4;

/// Which counter, as the model has it.
pub enum SubjectView {
    Manifest(Digest),
    Tag(Seq<char>),
    Repo,
}

/// A repository, one of its counters, and a day.
pub type BucketName = (Seq<char>, SubjectView, u16);

/// A delta's bucket, and what it adds there: the hour, manifest pulls, blob pulls
/// and bytes.
pub type DeltaView = (BucketName, (int, int, int, int));

impl DeepView for CountSubject {
    type V = SubjectView;

    open spec fn deep_view(&self) -> SubjectView {
        match self {
            CountSubject::Manifest(d) => SubjectView::Manifest(*d),
            CountSubject::Tag(t) => SubjectView::Tag(t@),
            CountSubject::Repo => SubjectView::Repo,
        }
    }
}

impl CountDelta {
    /// The bucket a delta belongs to.
    pub open spec fn name(self) -> BucketName {
        (self.repo@, self.subject.deep_view(), self.day)
    }
}

impl DeepView for CountDelta {
    type V = DeltaView;

    open spec fn deep_view(&self) -> DeltaView {
        (
            self.name(),
            (
                self.hour as int,
                self.manifest_pulls as int,
                self.blob_pulls as int,
                self.bytes_out as int,
            ),
        )
    }
}

impl DeepView for CountDay {
    type V = (u16, BucketView);

    open spec fn deep_view(&self) -> (u16, BucketView) {
        (self.day, self.bucket@)
    }
}

// --- the order of buckets ------------------------------------------------------

pub open spec fn subject_rank(s: SubjectView) -> int {
    match s {
        SubjectView::Manifest(_) => 0,
        SubjectView::Tag(_) => 1,
        SubjectView::Repo => 2,
    }
}

pub open spec fn subject_bytes(s: SubjectView) -> Seq<u8> {
    match s {
        SubjectView::Manifest(d) => d.encoded(),
        SubjectView::Tag(t) => encode_utf8(t),
        SubjectView::Repo => Seq::empty(),
    }
}

/// Manifests before tags before the repository itself, each in byte order.
pub open spec fn subject_lt(a: SubjectView, b: SubjectView) -> bool {
    if subject_rank(a) != subject_rank(b) {
        subject_rank(a) < subject_rank(b)
    } else {
        lex_lt(subject_bytes(a), subject_bytes(b))
    }
}

/// Buckets in the order of their repository's name, then their subject, then
/// their day.
pub open spec fn bucket_lt(a: BucketName, b: BucketName) -> bool {
    if a.0 != b.0 {
        lex_lt(encode_utf8(a.0), encode_utf8(b.0))
    } else if a.1 != b.1 {
        subject_lt(a.1, b.1)
    } else {
        a.2 < b.2
    }
}

/// A subject is known by its rank and bytes.
proof fn lemma_subject_is_its_bytes(a: SubjectView, b: SubjectView)
    requires
        subject_rank(a) == subject_rank(b),
        subject_bytes(a) == subject_bytes(b),
    ensures
        a == b,
{
    match (a, b) {
        (SubjectView::Manifest(x), SubjectView::Manifest(y)) => {
            encoded_digest_is_injective(x, y);
        },
        (SubjectView::Tag(x), SubjectView::Tag(y)) => {
            encode_utf8_decode_utf8(x);
            encode_utf8_decode_utf8(y);
        },
        _ => {},
    }
}

proof fn lemma_names_are_their_bytes(a: Seq<char>, b: Seq<char>)
    requires
        encode_utf8(a) == encode_utf8(b),
    ensures
        a == b,
{
    encode_utf8_decode_utf8(a);
    encode_utf8_decode_utf8(b);
}

/// Of two different buckets exactly one comes first.
proof fn lemma_bucket_total(a: BucketName, b: BucketName)
    ensures
        a == b || bucket_lt(a, b) || bucket_lt(b, a),
        !(bucket_lt(a, b) && bucket_lt(b, a)),
        !bucket_lt(a, a),
{
    lex_total(encode_utf8(a.0), encode_utf8(b.0));
    lex_total(subject_bytes(a.1), subject_bytes(b.1));
    if a.0 != b.0 {
        if encode_utf8(a.0) == encode_utf8(b.0) {
            lemma_names_are_their_bytes(a.0, b.0);
        }
        if lex_lt(encode_utf8(a.0), encode_utf8(b.0)) {
            lex_asymmetric(encode_utf8(a.0), encode_utf8(b.0));
        }
    } else if a.1 != b.1 {
        if subject_rank(a.1) == subject_rank(b.1) {
            if subject_bytes(a.1) == subject_bytes(b.1) {
                lemma_subject_is_its_bytes(a.1, b.1);
            }
            if lex_lt(subject_bytes(a.1), subject_bytes(b.1)) {
                lex_asymmetric(subject_bytes(a.1), subject_bytes(b.1));
            }
        }
    }
}

proof fn lemma_subject_transitive(a: SubjectView, b: SubjectView, c: SubjectView)
    requires
        subject_lt(a, b),
        subject_lt(b, c),
    ensures
        subject_lt(a, c),
        a != c,
{
    lex_irreflexive(subject_bytes(a));
    if subject_rank(a) == subject_rank(b) && subject_rank(b) == subject_rank(c) {
        lex_transitive(subject_bytes(a), subject_bytes(b), subject_bytes(c));
    }
}

proof fn lemma_bucket_transitive(a: BucketName, b: BucketName, c: BucketName)
    requires
        bucket_lt(a, b),
        bucket_lt(b, c),
    ensures
        bucket_lt(a, c),
{
    lex_irreflexive(encode_utf8(a.0));
    if a.0 != b.0 && b.0 != c.0 {
        lex_transitive(encode_utf8(a.0), encode_utf8(b.0), encode_utf8(c.0));
    } else if a.0 == b.0 && b.0 == c.0 && a.1 != b.1 && b.1 != c.1 {
        lemma_subject_transitive(a.1, b.1, c.1);
    }
}

// --- what a flush writes ---------------------------------------------------------

/// The buckets that some deltas touch, in order, each once.
pub open spec fn touched(ds: Seq<DeltaView>) -> Seq<BucketName>
    decreases ds.len(),
{
    if ds.len() == 0 {
        Seq::empty()
    } else {
        let names = touched(ds.drop_last());
        let name = ds.last().0;
        if names.contains(name) {
            names
        } else {
            names.insert(names.filter(|n: BucketName| bucket_lt(n, name)).len() as int, name)
        }
    }
}

/// The deltas of one bucket.
pub open spec fn deltas_of(ds: Seq<DeltaView>, name: BucketName) -> Seq<DeltaView> {
    ds.filter(|d: DeltaView| d.0 == name)
}

/// A bucket with some deltas added.
pub open spec fn bucket_after(b: BucketView, ds: Seq<DeltaView>) -> BucketView
    decreases ds.len(),
{
    if ds.len() == 0 {
        b
    } else {
        let d = ds.last().1;
        bucket_plus(bucket_after(b, ds.drop_last()), d.0, d.1, d.2, d.3)
    }
}

/// The group of buckets a subject's counters stand in.
pub open spec fn subject_group(repo: RepoId, s: SubjectView) -> Seq<u8> {
    match s {
        SubjectView::Manifest(d) => counters_of_manifest_key(repo, d),
        SubjectView::Tag(t) => counters_of_tag_key(repo, t),
        SubjectView::Repo => counters_of_repo_key(repo),
    }
}

/// The bucket stored against a key; an empty one where none is.
pub open spec fn bucket_at(es: Seq<Entry>, key: Seq<u8>) -> std::result::Result<BucketView, Fault> {
    match lookup(es, key) {
        None => Ok(empty_bucket()),
        Some(b) => match counters_wire(b) {
            Some(v) => Ok(v),
            None => Err(corrupt("CounterBucket"@)),
        },
    }
}

/// The key of a bucket in a repository.
pub open spec fn bucket_key(id: RepoId, name: BucketName) -> Seq<u8> {
    counter_key(subject_group(id, name.1), name.2, SHARD)
}

/// A bucket's value once some deltas are in.
pub open spec fn new_bucket(es: Seq<Entry>, ds: Seq<DeltaView>, id: RepoId, name: BucketName) -> BucketView {
    bucket_after(bucket_at(es, bucket_key(id, name))->Ok_0, deltas_of(ds, name))
}

/// What is written for a bucket reads back as the bucket.
pub open spec fn reads_back(b: BucketView) -> bool {
    counters_wire(counters_bytes(b)) == Some(b)
}

/// What a flush writes for one bucket: its new absolute value, or nothing where
/// the repository is not there. A flush never brings a name into being.
pub open spec fn bucket_write(
    es: Seq<Entry>,
    ds: Seq<DeltaView>,
    name: BucketName,
) -> std::result::Result<Seq<OpView>, Fault> {
    match repo_lookup(es, name.0) {
        Err(e) => Err(e),
        Ok(None) => Ok(Seq::empty()),
        Ok(Some(id)) => {
            match bucket_at(es, bucket_key(id, name)) {
                Err(e) => Err(e),
                Ok(_) => Ok(
                    seq![
                        OpView::Put(
                            bucket_key(id, name),
                            counters_bytes(new_bucket(es, ds, id, name)),
                        ),
                    ],
                ),
            }
        },
    }
}

/// What a flush writes for some buckets, one after the other.
pub open spec fn bucket_writes(
    es: Seq<Entry>,
    ds: Seq<DeltaView>,
    names: Seq<BucketName>,
) -> std::result::Result<Seq<OpView>, Fault>
    decreases names.len(),
{
    if names.len() == 0 {
        Ok(Seq::empty())
    } else {
        match bucket_writes(es, ds, names.drop_last()) {
            Err(e) => Err(e),
            Ok(done) => match bucket_write(es, ds, names.last()) {
                Err(e) => Err(e),
                Ok(more) => Ok(done + more),
            },
        }
    }
}

/// What a flush writes.
pub open spec fn flush_plan(es: Seq<Entry>, ds: Seq<DeltaView>) -> std::result::Result<
    Seq<OpView>,
    Fault,
> {
    bucket_writes(es, ds, touched(ds))
}

/// Everything a flush writes for some buckets reads back.
pub open spec fn all_read_back(es: Seq<Entry>, ds: Seq<DeltaView>, names: Seq<BucketName>) -> bool {
    forall|i: int|
        0 <= i < names.len() ==> (repo_lookup(es, (#[trigger] names[i]).0) matches Ok(Some(id))
            ==> reads_back(new_bucket(es, ds, id, names[i])))
}

/// A fault among the first buckets is the fault of all.
proof fn lemma_writes_fault(es: Seq<Entry>, ds: Seq<DeltaView>, names: Seq<BucketName>, n: int)
    requires
        0 <= n <= names.len(),
        bucket_writes(es, ds, names.subrange(0, n)) is Err,
    ensures
        bucket_writes(es, ds, names) == bucket_writes(es, ds, names.subrange(0, n)),
    decreases names.len(),
{
    if n == names.len() {
        assert(names.subrange(0, n) =~= names);
    } else {
        assert(names.drop_last().subrange(0, n) =~= names.subrange(0, n));
        lemma_writes_fault(es, ds, names.drop_last(), n);
    }
}

/// Names in order.
pub open spec fn names_ordered(names: Seq<BucketName>) -> bool {
    forall|i: int, j: int|
        0 <= i < j < names.len() ==> bucket_lt(#[trigger] names[i], #[trigger] names[j])
}

/// Where a name goes among names in order.
pub(crate) proof fn lemma_rank(names: Seq<BucketName>, name: BucketName, p: int)
    requires
        0 <= p <= names.len(),
        forall|i: int| 0 <= i < p ==> bucket_lt(#[trigger] names[i], name),
        forall|i: int| p <= i < names.len() ==> !bucket_lt(#[trigger] names[i], name),
    ensures
        names.filter(|n: BucketName| bucket_lt(n, name)).len() == p,
    decreases names.len(),
{
    reveal(Seq::filter);
    if names.len() > 0 {
        let head = names.drop_last();
        if p == names.len() {
            assert(bucket_lt(names[p - 1], name));
            lemma_rank(head, name, p - 1);
        } else {
            assert(!bucket_lt(names[names.len() - 1], name));
            lemma_rank(head, name, p);
        }
    }
}

/// Some place among names in order divides those before a name from the rest.
pub(crate) proof fn lemma_divides(names: Seq<BucketName>, name: BucketName) -> (p: int)
    requires
        names_ordered(names),
    ensures
        0 <= p <= names.len(),
        forall|i: int| 0 <= i < p ==> bucket_lt(#[trigger] names[i], name),
        forall|i: int| p <= i < names.len() ==> !bucket_lt(#[trigger] names[i], name),
    decreases names.len(),
{
    if names.len() == 0 {
        0
    } else if bucket_lt(names.last(), name) {
        assert forall|i: int| 0 <= i < names.len() implies bucket_lt(#[trigger] names[i], name) by {
            if i < names.len() - 1 {
                lemma_bucket_transitive(names[i], names.last(), name);
            }
        }
        names.len() as int
    } else {
        let head = names.drop_last();
        assert forall|i: int, j: int| 0 <= i < j < head.len() implies bucket_lt(
            #[trigger] head[i],
            #[trigger] head[j],
        ) by {
            assert(bucket_lt(names[i], names[j]));
        }
        let p = lemma_divides(head, name);
        assert forall|i: int| 0 <= i < p implies bucket_lt(#[trigger] names[i], name) by {
            assert(head[i] == names[i]);
        }
        assert forall|i: int| p <= i < names.len() implies !bucket_lt(#[trigger] names[i], name) by {
            if i < head.len() {
                assert(head[i] == names[i]);
            }
        }
        p
    }
}

/// A name put in its place keeps names in order.
proof fn lemma_insert_keeps_order(names: Seq<BucketName>, name: BucketName, p: int)
    requires
        names_ordered(names),
        0 <= p <= names.len(),
        forall|i: int| 0 <= i < p ==> bucket_lt(#[trigger] names[i], name),
        forall|i: int| p <= i < names.len() ==> bucket_lt(name, #[trigger] names[i]),
    ensures
        names_ordered(names.insert(p, name)),
{
    let all = names.insert(p, name);
    assert forall|i: int, j: int| 0 <= i < j < all.len() implies bucket_lt(
        #[trigger] all[i],
        #[trigger] all[j],
    ) by {
        let x = if i < p {
            i
        } else {
            i - 1
        };
        let y = if j < p {
            j
        } else {
            j - 1
        };
        if i == p {
            assert(all[j] == names[y]);
        } else if j == p {
            assert(all[i] == names[x]);
        } else {
            assert(all[i] == names[x] && all[j] == names[y]);
            assert(bucket_lt(names[x], names[y]));
        }
    }
}

/// The touched buckets stand in order, each once, and are those of the deltas.
pub(crate) proof fn lemma_touched(ds: Seq<DeltaView>)
    ensures
        names_ordered(touched(ds)),
        touched(ds).no_duplicates(),
        forall|i: int| 0 <= i < ds.len() ==> touched(ds).contains(#[trigger] ds[i].0),
    decreases ds.len(),
{
    if ds.len() > 0 {
        let head = ds.drop_last();
        let names = touched(head);
        let name = ds.last().0;
        lemma_touched(head);
        let all = touched(ds);
        if names.contains(name) {
            assert forall|i: int| 0 <= i < ds.len() implies all.contains(#[trigger] ds[i].0) by {
                if i < head.len() {
                    assert(head[i].0 == ds[i].0);
                }
            }
        } else {
            let p = lemma_divides(names, name);
            lemma_rank(names, name, p);
            assert forall|i: int| p <= i < names.len() implies bucket_lt(name, #[trigger] names[i]) by {
                lemma_bucket_total(names[i], name);
            }
            lemma_insert_keeps_order(names, name, p);
            assert(all == names.insert(p, name));
            assert(all[p] == name);
            assert forall|i: int| 0 <= i < ds.len() implies all.contains(#[trigger] ds[i].0) by {
                if i < head.len() {
                    assert(names.contains(head[i].0));
                    let x = choose|x: int| 0 <= x < names.len() && names[x] == head[i].0;
                    let y = if x < p {
                        x
                    } else {
                        x + 1
                    };
                    assert(all[y] == ds[i].0);
                }
            }
        }
        assert forall|i: int, j: int| 0 <= i < all.len() && 0 <= j < all.len() && i != j implies all[i]
            != all[j] by {
            lemma_bucket_total(all[i], all[j]);
            if i < j {
                assert(bucket_lt(all[i], all[j]));
            } else {
                assert(bucket_lt(all[j], all[i]));
            }
        }
    }
}

// --- what a window reads -----------------------------------------------------------

/// A day window read off a run of buckets: shards of one day are summed, and the
/// run ends at the first day behind the window. The flag says that it ended.
pub open spec fn window(group: Seq<u8>, rows: Seq<Entry>, last: u16) -> std::result::Result<
    (Seq<(u16, BucketView)>, bool),
    Fault,
>
    decreases rows.len(),
{
    if rows.len() == 0 {
        Ok((Seq::empty(), false))
    } else {
        match window(group, rows.drop_last(), last) {
            Err(e) => Err(e),
            Ok((days, true)) => Ok((days, true)),
            Ok((days, false)) => match counter_suffix_of(rows.last().0, group) {
                None => Ok((days, false)),
                Some((day, _)) => if day > last {
                    Ok((days, true))
                } else {
                    match counters_wire(rows.last().1) {
                        None => Err(corrupt("CounterBucket"@)),
                        Some(b) => if days.len() > 0 && days.last().0 == day {
                            Ok((days.drop_last().push((day, bucket_sum(days.last().1, b))), false))
                        } else {
                            Ok((days.push((day, b)), false))
                        },
                    }
                },
            },
        }
    }
}

/// A run that ended, or failed, early is settled.
proof fn lemma_window_settled(group: Seq<u8>, rows: Seq<Entry>, last: u16, n: int)
    requires
        0 <= n <= rows.len(),
        window(group, rows.subrange(0, n), last) matches Ok(w) ==> w.1,
    ensures
        window(group, rows, last) == window(group, rows.subrange(0, n), last),
    decreases rows.len(),
{
    if n == rows.len() {
        assert(rows.subrange(0, n) =~= rows);
    } else {
        assert(rows.drop_last().subrange(0, n) =~= rows.subrange(0, n));
        lemma_window_settled(group, rows.drop_last(), last, n);
    }
}

/// The last day of a window.
pub open spec fn last_day(from: u16, days: u16) -> u16 {
    if from + days - 1 > u16::MAX {
        u16::MAX
    } else {
        (from + days - 1) as u16
    }
}

/// A subject's days inside a window.
pub open spec fn counts_answer(
    es: Seq<Entry>,
    repo: Seq<char>,
    subject: SubjectView,
    from: u16,
    days: u16,
) -> std::result::Result<Seq<(u16, BucketView)>, Fault> {
    if days == 0 {
        Ok(Seq::empty())
    } else {
        match repo_lookup(es, repo) {
            Err(e) => Err(e),
            Ok(None) => Ok(Seq::empty()),
            Ok(Some(id)) => {
                let group = subject_group(id, subject);
                let list = listing(es, group, Some(counters_from_day_key(group, from)));
                match window(
                    group,
                    shown(list, (days * SHARD_SCAN_SLACK) as nat),
                    last_day(from, days),
                ) {
                    Ok((out, _)) => Ok(out),
                    Err(e) => Err(e),
                }
            },
        }
    }
}

/// A bucket's key is all there is to its suffix.
pub(crate) proof fn lemma_suffix_is_key(k: Seq<u8>, group: Seq<u8>)
    ensures
        counter_suffix_of(k, group) matches Some((day, shard)) ==> k == counter_key(
            group,
            day,
            shard,
        ),
{
    if let Some((day, shard)) = counter_suffix_of(k, group) {
        let n = group.len() as int;
        assert forall|i: int| 0 <= i < n implies k[i] == group[i] by {
            assert(k.subrange(0, n)[i] == group[i]);
        }
        assert(k =~= counter_key(group, day, shard));
    }
}

/// Buckets in key order are in the order of their days.
pub(crate) proof fn lemma_days_in_order(group: Seq<u8>, a: (u16, u16), b: (u16, u16))
    requires
        lex_lt(counter_key(group, a.0, a.1), counter_key(group, b.0, b.1)),
    ensures
        a.0 <= b.0,
{
    if b.0 < a.0 {
        counters_from_day_starts_the_window(group, a.0, a.0, a.1);
        counters_from_day_starts_the_window(group, a.0, b.0, b.1);
        lex_transitive(
            counters_from_day_key(group, a.0),
            counter_key(group, a.0, a.1),
            counter_key(group, b.0, b.1),
        );
    }
}

/// A window's days lie inside it, both ends included, and come oldest first, each
/// day once.
pub proof fn a_window_holds_its_days_in_order(
    es: Seq<Entry>,
    repo: Seq<char>,
    subject: SubjectView,
    from: u16,
    days: u16,
)
    requires
        ordered(es),
    ensures
        counts_answer(es, repo, subject, from, days) matches Ok(out) ==> {
            &&& forall|i: int|
                0 <= i < out.len() ==> from <= (#[trigger] out[i]).0 <= last_day(from, days)
            &&& forall|i: int, j: int|
                0 <= i < j < out.len() ==> (#[trigger] out[i]).0 < (#[trigger] out[j]).0
        },
{
    if days > 0 && repo_lookup(es, repo) is Ok && repo_lookup(es, repo)->Ok_0 is Some {
        let group = subject_group(repo_lookup(es, repo)->Ok_0->0, subject);
        let cursor = counters_from_day_key(group, from);
        let list = listing(es, group, Some(cursor));
        let rows = shown(list, (days * SHARD_SCAN_SLACK) as nat);
        lemma_listing(es, group, Some(cursor));
        assert forall|i: int| 0 <= i < rows.len() implies lex_lt(cursor, #[trigger] rows[i].0) by {
            assert(rows[i] == list[i]);
            assert(in_range(list[i].0, group, Some(cursor)));
        }
        assert forall|i: int, j: int| 0 <= i < j < rows.len() implies lex_lt(
            #[trigger] rows[i].0,
            #[trigger] rows[j].0,
        ) by {
            assert(lex_lt(list[i].0, list[j].0));
        }
        lemma_window_in_order(group, rows, from, last_day(from, days));
    }
}

pub(crate) proof fn lemma_window_in_order(group: Seq<u8>, rows: Seq<Entry>, from: u16, last: u16)
    requires
        ordered(rows),
        forall|i: int|
            0 <= i < rows.len() ==> lex_lt(
                counters_from_day_key(group, from),
                #[trigger] rows[i].0,
            ),
    ensures
        window(group, rows, last) matches Ok((out, _)) ==> {
            &&& forall|i: int| 0 <= i < out.len() ==> from <= (#[trigger] out[i]).0 <= last
            &&& forall|i: int, j: int|
                0 <= i < j < out.len() ==> (#[trigger] out[i]).0 < (#[trigger] out[j]).0
            &&& out.len() > 0 ==> exists|x: int|
                0 <= x < rows.len() && #[trigger] counter_suffix_of(rows[x].0, group) is Some
                    && (counter_suffix_of(rows[x].0, group)->0).0 == out.last().0
        },
    decreases rows.len(),
{
    if rows.len() > 0 {
        let head = rows.drop_last();
        let n = rows.len() - 1;
        assert forall|i: int, j: int| 0 <= i < j < head.len() implies lex_lt(
            #[trigger] head[i].0,
            #[trigger] head[j].0,
        ) by {
            assert(lex_lt(rows[i].0, rows[j].0));
        }
        assert forall|i: int| 0 <= i < head.len() implies lex_lt(
            counters_from_day_key(group, from),
            #[trigger] head[i].0,
        ) by {
            assert(rows[i] == head[i]);
        }
        lemma_window_in_order(group, head, from, last);
        if let Ok((before, ended)) = window(group, head, last) {
            if before.len() > 0 {
                let x = choose|x: int|
                    0 <= x < head.len() && #[trigger] counter_suffix_of(head[x].0, group) is Some
                        && (counter_suffix_of(head[x].0, group)->0).0 == before.last().0;
                assert(counter_suffix_of(rows[x].0, group) is Some);
                lemma_suffix_is_key(rows[x].0, group);
                lemma_suffix_is_key(rows[n].0, group);
                assert(lex_lt(rows[x].0, rows[n].0));
                if counter_suffix_of(rows[n].0, group) is Some {
                    lemma_days_in_order(
                        group,
                        counter_suffix_of(rows[x].0, group)->0,
                        counter_suffix_of(rows[n].0, group)->0,
                    );
                }
            }
            if counter_suffix_of(rows[n].0, group) is Some {
                let (day, shard) = counter_suffix_of(rows[n].0, group)->0;
                lemma_suffix_is_key(rows[n].0, group);
                counters_from_day_starts_the_window(group, from, day, shard);
                assert(counter_suffix_of(rows[n].0, group) is Some);
            }
        }
    }
}

/// Buckets of different names have different keys, where different names are
/// different repositories.
proof fn lemma_bucket_keys_differ(a: RepoId, x: BucketName, b: RepoId, y: BucketName)
    requires
        bucket_key(a, x) == bucket_key(b, y),
    ensures
        a == b,
        x.1 == y.1,
        x.2 == y.2,
{
    let (g, h) = (subject_group(a, x.1), subject_group(b, y.1));
    let k = bucket_key(a, x);
    assert(k.len() == g.len() + 4 && k.len() == h.len() + 4);
    assert(g =~= k.subrange(0, g.len() as int));
    assert(h =~= k.subrange(0, h.len() as int));
    counter_suffix_reads_the_key(g, x.2, SHARD);
    counter_suffix_reads_the_key(h, y.2, SHARD);
    assert(g[1] == h[1]);
    assert(g.subrange(2, 6) =~= repo_bytes(a));
    assert(h.subrange(2, 6) =~= repo_bytes(b));
    repo_bytes_injective(a, b);
    match (x.1, y.1) {
        (SubjectView::Manifest(d), SubjectView::Manifest(e)) => {
            assert(g.subrange(6, g.len() as int) =~= d.encoded());
            assert(h.subrange(6, h.len() as int) =~= e.encoded());
            encoded_digest_is_injective(d, e);
        },
        (SubjectView::Tag(t), SubjectView::Tag(u)) => {
            assert(g.subrange(6, g.len() - 1) =~= encode_utf8(t));
            assert(h.subrange(6, h.len() - 1) =~= encode_utf8(u));
            lemma_names_are_their_bytes(t, u);
        },
        _ => {},
    }
}

/// What a flush of some buckets says of one of their keys.
pub(crate) proof fn lemma_writes_say(
    es: Seq<Entry>,
    ds: Seq<DeltaView>,
    names: Seq<BucketName>,
    id: RepoId,
    name: BucketName,
)
    requires
        bucket_writes(es, ds, names) is Ok,
        repo_lookup(es, name.0) == Ok::<Option<RepoId>, Fault>(Some(id)),
        forall|i: int|
            0 <= i < names.len() && repo_lookup(es, (#[trigger] names[i]).0) == Ok::<
                Option<RepoId>,
                Fault,
            >(Some(id)) ==> names[i].0 == name.0,
    ensures
        last_word(bucket_writes(es, ds, names)->Ok_0, bucket_key(id, name)) == if names.contains(
            name,
        ) {
            Some(Some(counters_bytes(new_bucket(es, ds, id, name))))
        } else {
            None
        },
    decreases names.len(),
{
    if names.len() > 0 {
        let head = names.drop_last();
        assert forall|i: int|
            0 <= i < head.len() && repo_lookup(es, (#[trigger] head[i]).0) == Ok::<
                Option<RepoId>,
                Fault,
            >(Some(id)) implies head[i].0 == name.0 by {
            assert(names[i] == head[i]);
        }
        lemma_writes_say(es, ds, head, id, name);
        let done = bucket_writes(es, ds, head)->Ok_0;
        let more = bucket_write(es, ds, names.last())->Ok_0;
        let last = names.last();
        assert(names[names.len() - 1] == last);
        if more.len() == 0 {
            assert(done + more =~= done);
        } else {
            assert((done + more).drop_last() =~= done);
            let other = repo_lookup(es, last.0)->Ok_0->0;
            if bucket_key(other, last) == bucket_key(id, name) {
                lemma_bucket_keys_differ(other, last, id, name);
            }
        }
        if names.contains(name) && last != name {
            let x = choose|x: int| 0 <= x < names.len() && names[x] == name;
            assert(head[x] == name);
        }
        if head.contains(name) {
            let x = choose|x: int| 0 <= x < head.len() && head[x] == name;
            assert(names[x] == name);
        }
    }
}

/// A flush adds to what is stored: afterwards each bucket it touched holds what it
/// held before with its own deltas counted in, and any other bucket is as it was.
/// The repository's name must be the only one of its id.
pub proof fn a_flush_accumulates(
    es: Seq<Entry>,
    ds: Seq<DeltaView>,
    later: Seq<Entry>,
    id: RepoId,
    name: BucketName,
)
    requires
        flush_plan(es, ds) is Ok,
        table(later) == applied(table(es), flush_plan(es, ds)->Ok_0),
        all_read_back(es, ds, touched(ds)),
        repo_lookup(es, name.0) == Ok::<Option<RepoId>, Fault>(Some(id)),
        forall|other: Seq<char>|
            repo_lookup(es, other) == Ok::<Option<RepoId>, Fault>(Some(id)) ==> other == name.0,
    ensures
        touched(ds).contains(name) ==> bucket_at(later, bucket_key(id, name)) == Ok::<
            BucketView,
            Fault,
        >(new_bucket(es, ds, id, name)),
        !touched(ds).contains(name) ==> bucket_at(later, bucket_key(id, name)) == bucket_at(
            es,
            bucket_key(id, name),
        ),
{
    let names = touched(ds);
    lemma_writes_say(es, ds, names, id, name);
    applied_by_last_word(table(es), flush_plan(es, ds)->Ok_0, bucket_key(id, name));
    if names.contains(name) {
        let x = choose|x: int| 0 <= x < names.len() && names[x] == name;
        assert(names[x] == name);
    }
}

// --- the operations ------------------------------------------------------------------

fn rank_of(s: &CountSubject) -> (r: u8)
    ensures
        r == subject_rank(s.deep_view()),
{
    match s {
        CountSubject::Manifest(_) => 0,
        CountSubject::Tag(_) => 1,
        CountSubject::Repo => 2,
    }
}

fn bytes_of(s: &CountSubject) -> (r: Vec<u8>)
    ensures
        r@ == subject_bytes(s.deep_view()),
{
    match s {
        CountSubject::Manifest(d) => {
            let mut out: Vec<u8> = Vec::new();
            d.encode_into(&mut out);
            assert(out@ =~= d.encoded());
            out
        },
        CountSubject::Tag(t) => vstd::slice::slice_to_vec(t.as_str().as_bytes()),
        CountSubject::Repo => {
            let out: Vec<u8> = Vec::new();
            assert(out@ =~= Seq::<u8>::empty());
            out
        },
    }
}

/// Whether a delta's bucket comes before another's.
fn bucket_before(a: &CountDelta, b: &CountDelta) -> (r: bool)
    ensures
        r == bucket_lt(a.name(), b.name()),
{
    let (x, y) = (a.repo.as_str().as_bytes(), b.repo.as_str().as_bytes());
    proof {
        if encode_utf8(a.repo@) == encode_utf8(b.repo@) {
            lemma_names_are_their_bytes(a.repo@, b.repo@);
        }
    }
    if !bytes_eq(x, y) {
        return bytes_lt(x, y);
    }
    let (p, q): (u8, u8) = (rank_of(&a.subject), rank_of(&b.subject));
    if p != q {
        return p < q;
    }
    let (s, t) = (bytes_of(&a.subject), bytes_of(&b.subject));
    proof {
        if s@ == t@ {
            lemma_subject_is_its_bytes(a.subject.deep_view(), b.subject.deep_view());
        }
    }
    if !bytes_eq(s.as_slice(), t.as_slice()) {
        return bytes_lt(s.as_slice(), t.as_slice());
    }
    a.day < b.day
}

/// The model of the first deltas of a run.
spec fn first_deltas(deltas: Seq<CountDelta>, n: int) -> Seq<DeltaView> {
    deltas.subrange(0, n).map_values(|d: CountDelta| d.deep_view())
}

/// Deltas sorted into buckets: for each bucket, in order, the places of its deltas.
spec fn sorted_into(deltas: Seq<CountDelta>, n: int, groups: Seq<Vec<usize>>) -> bool {
    let ds = first_deltas(deltas, n);
    let names = touched(ds);
    &&& groups.len() == names.len()
    &&& forall|g: int|
        0 <= g < groups.len() ==> (#[trigger] groups[g])@.len() > 0 && places(
            deltas,
            groups[g]@,
        ) == deltas_of(ds, names[g])
    &&& forall|g: int, x: int|
        0 <= g < groups.len() && 0 <= x < groups[g]@.len() ==> (#[trigger] groups[g]@[x]) < n
    &&& forall|g: int|
        0 <= g < groups.len() ==> deltas[(#[trigger] groups[g])@[0] as int].name() == names[g]
}

/// The deltas at some places.
spec fn places(deltas: Seq<CountDelta>, at: Seq<usize>) -> Seq<DeltaView> {
    at.map_values(|i: usize| deltas[i as int].deep_view())
}

/// One more delta among those of a bucket.
proof fn lemma_deltas_push(ds: Seq<DeltaView>, d: DeltaView, name: BucketName)
    ensures
        deltas_of(ds.push(d), name) == if d.0 == name {
            deltas_of(ds, name).push(d)
        } else {
            deltas_of(ds, name)
        },
{
    reveal(Seq::filter);
    assert(ds.push(d).drop_last() =~= ds);
}

/// A bucket none of the deltas touch has no deltas.
pub(crate) proof fn lemma_no_deltas(ds: Seq<DeltaView>, name: BucketName)
    requires
        !touched(ds).contains(name),
    ensures
        deltas_of(ds, name) == Seq::<DeltaView>::empty(),
    decreases ds.len(),
{
    reveal(Seq::filter);
    lemma_touched(ds);
    if ds.len() > 0 {
        let head = ds.drop_last();
        lemma_touched(head);
        if touched(head).contains(name) {
            let names = touched(head);
            let x = choose|x: int| 0 <= x < names.len() && names[x] == name;
            let last = ds.last().0;
            if !names.contains(last) {
                let p = lemma_divides(names, last);
                lemma_rank(names, last, p);
                let y = if x < p {
                    x
                } else {
                    x + 1
                };
                assert(touched(ds)[y] == name);
            }
            assert(false);
        }
        lemma_no_deltas(head, name);
        assert(ds[ds.len() - 1].0 == ds.last().0);
    } else {
        assert(deltas_of(ds, name) =~= Seq::<DeltaView>::empty());
    }
}

/// Sort deltas into buckets.
fn sort_into(deltas: &[CountDelta]) -> (groups: Vec<Vec<usize>>)
    ensures
        sorted_into(deltas@, deltas@.len() as int, groups@),
{
    let mut groups: Vec<Vec<usize>> = Vec::new();
    let mut i: usize = 0;
    proof {
        assert(first_deltas(deltas@, 0) =~= Seq::<DeltaView>::empty());
    }
    while i < deltas.len()
        invariant
            i <= deltas@.len(),
            sorted_into(deltas@, i as int, groups@),
        decreases deltas@.len() - i,
    {
        let ghost ds = first_deltas(deltas@, i as int);
        let ghost names = touched(ds);
        let ghost d = deltas@[i as int].deep_view();
        let ghost name = d.0;
        proof {
            lemma_touched(ds);
            assert(first_deltas(deltas@, i + 1) =~= ds.push(d));
            assert(ds.push(d).drop_last() =~= ds);
        }
        let mut low: usize = 0;
        let mut high: usize = groups.len();
        while low < high
            invariant
                low <= high <= groups@.len(),
                i < deltas@.len(),
                sorted_into(deltas@, i as int, groups@),
                ds == first_deltas(deltas@, i as int),
                names == touched(ds),
                names_ordered(names),
                name == deltas@[i as int].name(),
                forall|x: int| 0 <= x < low ==> bucket_lt(#[trigger] names[x], name),
                forall|x: int| high <= x < names.len() ==> !bucket_lt(#[trigger] names[x], name),
            decreases high - low,
        {
            let mid: usize = low + (high - low) / 2;
            assert(groups@[mid as int]@[0] < i);
            let first: usize = groups[mid][0];
            if bucket_before(&deltas[first], &deltas[i]) {
                proof {
                    assert forall|x: int| 0 <= x < mid + 1 implies bucket_lt(
                        #[trigger] names[x],
                        name,
                    ) by {
                        if x < mid {
                            lemma_bucket_transitive(names[x], names[mid as int], name);
                        }
                    }
                }
                low = mid + 1;
            } else {
                proof {
                    assert forall|x: int| mid <= x < names.len() implies !bucket_lt(
                        #[trigger] names[x],
                        name,
                    ) by {
                        if mid < x && bucket_lt(names[x], name) {
                            lemma_bucket_transitive(names[mid as int], names[x], name);
                        }
                    }
                }
                high = mid;
            }
        }
        proof {
            lemma_rank(names, name, low as int);
        }
        let mut found: bool = false;
        if low < groups.len() {
            assert(groups@[low as int]@[0] < i);
            let first: usize = groups[low][0];
            found = !bucket_before(&deltas[i], &deltas[first]);
        }
        let ghost before = groups@;
        if found {
            proof {
                lemma_bucket_total(names[low as int], name);
                assert(names[low as int] == name);
                assert(names.contains(name));
            }
            let mut group: Vec<usize> = groups.remove(low);
            let ghost had = group@;
            assert(had == before[low as int]@);
            group.push(i);
            groups.insert(low, group);
            proof {
                assert(groups@ =~= before.update(low as int, group));
                assert(places(deltas@, group@) =~= places(deltas@, had).push(d));
                assert forall|g: int| 0 <= g < groups@.len() implies places(
                    deltas@,
                    (#[trigger] groups@[g])@,
                ) == deltas_of(ds.push(d), names[g]) by {
                    lemma_deltas_push(ds, d, names[g]);
                    if g != low {
                        assert(names[g] != name);
                        assert(groups@[g] == before[g]);
                    }
                }
                assert forall|g: int, x: int|
                    0 <= g < groups@.len() && 0 <= x < groups@[g]@.len() implies (
                #[trigger] groups@[g]@[x]) < i + 1 by {
                    if g != low {
                        assert(before[g]@[x] < i);
                    } else if x < had.len() {
                        assert(before[g]@[x] < i);
                    }
                }
                assert forall|g: int| 0 <= g < groups@.len() implies deltas@[(
                #[trigger] groups@[g])@[0] as int].name() == names[g] by {
                    assert(before[g]@[0] == groups@[g]@[0]);
                }
            }
        } else {
            proof {
                assert forall|x: int| 0 <= x < names.len() implies #[trigger] names[x] != name by {
                    lemma_bucket_total(name, name);
                    if x == low {
                        assert(bucket_lt(name, names[x]));
                    } else if x > low {
                        assert(bucket_lt(names[low as int], names[x]));
                        lemma_bucket_transitive(name, names[low as int], names[x]);
                    }
                }
                assert(!names.contains(name));
                lemma_no_deltas(ds, name);
            }
            let mut group: Vec<usize> = Vec::new();
            group.push(i);
            groups.insert(low, group);
            proof {
                let all = touched(ds.push(d));
                assert(all == names.insert(low as int, name));
                assert(groups@ =~= before.insert(low as int, group));
                assert(places(deltas@, group@) =~= Seq::<DeltaView>::empty().push(d));
                assert forall|g: int| 0 <= g < groups@.len() implies places(
                    deltas@,
                    (#[trigger] groups@[g])@,
                ) == deltas_of(ds.push(d), all[g]) && groups@[g]@.len() > 0 by {
                    lemma_deltas_push(ds, d, all[g]);
                    let x = if g < low {
                        g
                    } else {
                        g - 1
                    };
                    if g != low {
                        assert(all[g] == names[x]);
                        assert(groups@[g] == before[x]);
                    }
                }
                assert forall|g: int, y: int|
                    0 <= g < groups@.len() && 0 <= y < groups@[g]@.len() implies (
                #[trigger] groups@[g]@[y]) < i + 1 by {
                    let x = if g < low {
                        g
                    } else {
                        g - 1
                    };
                    if g != low {
                        assert(groups@[g] == before[x]);
                        assert(before[x]@[y] < i);
                    }
                }
                assert forall|g: int| 0 <= g < groups@.len() implies deltas@[(
                #[trigger] groups@[g])@[0] as int].name() == all[g] by {
                    let x = if g < low {
                        g
                    } else {
                        g - 1
                    };
                    if g != low {
                        assert(groups@[g] == before[x]);
                        assert(before[x]@[0] == groups@[g]@[0]);
                    }
                }
            }
        }
        i += 1;
    }
    groups
}

/// The scan prefix of a subject's buckets.
fn group_of(repo: RepoId, s: &CountSubject) -> (r: Vec<u8>)
    ensures
        r@ == subject_group(repo, s.deep_view()),
{
    match s {
        CountSubject::Manifest(d) => counters_of_manifest(repo, d),
        CountSubject::Tag(t) => counters_of_tag(repo, t.as_str()),
        CountSubject::Repo => counters_of_repo(repo),
    }
}

impl<E: MetaEngine> Registry<E> {
    /// Plan one bucket's new value.
    fn stage_bucket(&self, batch: &mut WriteBatch, deltas: &[CountDelta], at: &Vec<usize>) -> (r: Result<
        (),
    >)
        requires
            self.valid(),
            at@.len() > 0,
            forall|x: int| 0 <= x < at@.len() ==> (#[trigger] at@[x]) < deltas@.len(),
            places(deltas@, at@) == deltas_of(
                first_deltas(deltas@, deltas@.len() as int),
                deltas@[at@[0] as int].name(),
            ),
        ensures
            match (
                r,
                bucket_write(
                    self.entries(),
                    first_deltas(deltas@, deltas@.len() as int),
                    deltas@[at@[0] as int].name(),
                ),
            ) {
                (Ok(()), Ok(ops)) => final(batch)@ == old(batch)@ + ops && all_read_back(
                    self.entries(),
                    first_deltas(deltas@, deltas@.len() as int),
                    seq![deltas@[at@[0] as int].name()],
                ),
                (Err(e), w) => e@ == Fault::Storage && !self.reliable() || (w matches Err(f) && e@
                    == f),
                _ => false,
            },
    {
        let ghost own = places(deltas@, at@);
        let ghost before = batch@;
        let first = &deltas[at[0]];
        let id = match self.lookup_repo(first.repo.as_str()) {
            Ok(Some(id)) => id,
            Ok(None) => {
                assert(before + Seq::<OpView>::empty() =~= before);
                return Ok(());
            },
            Err(e) => return Err(e),
        };
        let group = group_of(id, &first.subject);
        let key = counter(group.as_slice(), first.day, SHARD);
        let mut bucket = match self.value(key.as_slice()) {
            Ok(Some(stored)) => match decode_bucket(stored.as_slice()) {
                Ok(b) => b,
                Err(e) => return Err(e),
            },
            Ok(None) => CounterBucket::default(),
            Err(e) => return Err(e),
        };
        let ghost start = bucket@;
        let mut x: usize = 0;
        assert(own.subrange(0, 0) =~= Seq::<DeltaView>::empty());
        while x < at.len()
            invariant
                x <= at@.len(),
                forall|x: int| 0 <= x < at@.len() ==> (#[trigger] at@[x]) < deltas@.len(),
                own == places(deltas@, at@),
                bucket@ == bucket_after(start, own.subrange(0, x as int)),
            decreases at@.len() - x,
        {
            assert(at@[x as int] < deltas@.len());
            let d = &deltas[at[x]];
            bucket.add(d.hour, d.manifest_pulls, d.blob_pulls, d.bytes_out);
            assert(own.subrange(0, x + 1).drop_last() =~= own.subrange(0, x as int));
            x += 1;
        }
        assert(own.subrange(0, x as int) =~= own);
        let value = match encode_bucket(&bucket) {
            Ok(value) => value,
            Err(e) => return Err(e),
        };
        let _ = batch.put(key, value);
        assert(batch@ =~= before + seq![OpView::Put(key@, value@)]);
        Ok(())
    }

    /// Fold a flush's deltas into the store: one `get` per dirty bucket, one batch
    /// for all of them.
    ///
    /// Deltas for the same bucket are combined first, so a flush touching one
    /// manifest a million times still does one lookup and one `Put`. A repo the
    /// deltas name but the store does not have is **skipped, not interned**: it
    /// was deleted between the pull and the flush, and minting an id for it would
    /// resurrect a name in the catalog on the strength of a counter.
    pub fn add_pull_counts(&mut self, deltas: &[CountDelta]) -> (r: Result<usize>)
        requires
            old(self).valid(),
        ensures
            final(self).valid(),
            final(self).reliable() == old(self).reliable(),
            match (r, flush_plan(old(self).entries(), deltas@.map_values(|d: CountDelta| d.deep_view()))) {
                (Ok(written), Ok(ops)) => {
                    &&& written == ops.len()
                    &&& table(final(self).entries()) == applied(table(old(self).entries()), ops)
                    &&& all_read_back(
                        old(self).entries(),
                        deltas@.map_values(|d: CountDelta| d.deep_view()),
                        touched(deltas@.map_values(|d: CountDelta| d.deep_view())),
                    )
                },
                (Err(e), plan) => final(self).entries() == old(self).entries() && (e@
                    == Fault::Storage && !old(self).reliable() || (plan matches Err(f) && e@ == f)),
                _ => false,
            },
            deltas@.len() == 0 ==> r == Ok::<usize, RegistryError>(0) && final(self).entries() == old(
                self,
            ).entries(),
    {
        let ghost es = self.entries();
        let ghost ds = first_deltas(deltas@, deltas@.len() as int);
        let ghost names = touched(ds);
        proof {
            assert(deltas@.subrange(0, deltas@.len() as int) =~= deltas@);
            assert(ds == deltas@.map_values(|d: CountDelta| d.deep_view()));
        }
        let groups = sort_into(deltas);
        let mut batch = WriteBatch::new();
        let mut g: usize = 0;
        assert(names.subrange(0, 0) =~= Seq::<BucketName>::empty());
        while g < groups.len()
            invariant
                g <= groups@.len(),
                self.valid(),
                *self == *old(self),
                es == self.entries(),
                ds == first_deltas(deltas@, deltas@.len() as int),
                ds == deltas@.map_values(|d: CountDelta| d.deep_view()),
                names == touched(ds),
                sorted_into(deltas@, deltas@.len() as int, groups@),
                bucket_writes(es, ds, names.subrange(0, g as int)) == Ok::<Seq<OpView>, Fault>(
                    batch@,
                ),
                all_read_back(es, ds, names.subrange(0, g as int)),
            decreases groups@.len() - g,
        {
            let ghost before = batch@;
            proof {
                assert(groups@[g as int]@.len() > 0);
                assert forall|x: int| 0 <= x < groups@[g as int]@.len() implies (
                #[trigger] groups@[g as int]@[x]) < deltas@.len() by {}
                assert(names.subrange(0, g + 1).drop_last() =~= names.subrange(0, g as int));
                assert(names.subrange(0, g + 1).last() == names[g as int]);
            }
            match self.stage_bucket(&mut batch, deltas, &groups[g]) {
                Ok(()) => {
                    proof {
                        let one = seq![names[g as int]];
                        assert(one[0] == names[g as int]);
                        assert forall|i: int| 0 <= i < g + 1 implies (repo_lookup(
                            es,
                            (#[trigger] names.subrange(0, g + 1)[i]).0,
                        ) matches Ok(Some(id)) ==> reads_back(
                            new_bucket(es, ds, id, names.subrange(0, g + 1)[i]),
                        )) by {
                            if i < g {
                                assert(names.subrange(0, g as int)[i] == names[i]);
                            }
                        }
                    }
                },
                Err(e) => {
                    proof {
                        if bucket_write(es, ds, names[g as int]) is Err {
                            lemma_writes_fault(es, ds, names, g + 1);
                        }
                    }
                    return Err(e);
                },
            }
            g += 1;
        }
        assert(names.subrange(0, g as int) =~= names);
        let written: usize = batch.len();
        if written > 0 {
            match self.apply(&batch) {
                Ok(()) => {},
                Err(e) => return Err(e),
            }
        }
        Ok(written)
    }

    /// One manifest's counters over a day window - the wall.
    pub fn manifest_counts(&self, repo: &str, digest: &Digest, from: u16, days: u16) -> (r: Result<
        Vec<CountDay>,
    >)
        requires
            self.valid(),
        ensures
            answers(
                seen(r),
                counts_answer(
                    self.entries(),
                    repo@,
                    SubjectView::Manifest(*digest),
                    from,
                    days,
                ),
                self.reliable(),
            ),
            days == 0 ==> r is Ok && (r->Ok_0).deep_view() == Seq::<(u16, BucketView)>::empty(),
    {
        self.counts(repo, &CountSubject::Manifest(*digest), from, days)
    }

    /// One tag's counters over a day window.
    pub fn tag_counts(&self, repo: &str, tag: &str, from: u16, days: u16) -> (r: Result<
        Vec<CountDay>,
    >)
        requires
            self.valid(),
        ensures
            answers(
                seen(r),
                counts_answer(self.entries(), repo@, SubjectView::Tag(tag@), from, days),
                self.reliable(),
            ),
            days == 0 ==> r is Ok && (r->Ok_0).deep_view() == Seq::<(u16, BucketView)>::empty(),
    {
        self.counts(repo, &CountSubject::Tag(tag.to_owned()), from, days)
    }

    /// A repository's counters over a day window. The only scope carrying blob
    /// traffic.
    pub fn repo_counts(&self, repo: &str, from: u16, days: u16) -> (r: Result<Vec<CountDay>>)
        requires
            self.valid(),
        ensures
            answers(
                seen(r),
                counts_answer(self.entries(), repo@, SubjectView::Repo, from, days),
                self.reliable(),
            ),
            days == 0 ==> r is Ok && (r->Ok_0).deep_view() == Seq::<(u16, BucketView)>::empty(),
    {
        self.counts(repo, &CountSubject::Repo, from, days)
    }

    /// One bounded forward scan over a day window, shards summed.
    ///
    /// The window is the bound, so the whole visualisation is one scan arriving in
    /// chronological order. An unknown repository is an empty series rather than
    /// an error: counts outlive what they describe. Only days present in the store
    /// come back; zero-filling is the caller's job.
    #[verifier::loop_isolation(false)]
    fn counts(&self, repo: &str, subject: &CountSubject, from: u16, days: u16) -> (r: Result<
        Vec<CountDay>,
    >)
        requires
            self.valid(),
        ensures
            answers(
                seen(r),
                counts_answer(self.entries(), repo@, subject.deep_view(), from, days),
                self.reliable(),
            ),
            days == 0 ==> r is Ok && (r->Ok_0).deep_view() == Seq::<(u16, BucketView)>::empty(),
    {
        let mut out: Vec<CountDay> = Vec::new();
        assert(out.deep_view() =~= Seq::empty());
        if days == 0 {
            return Ok(out);
        }
        let id = match self.lookup_repo(repo) {
            Ok(Some(id)) => id,
            Ok(None) => return Ok(out),
            Err(e) => return Err(e),
        };
        let group = group_of(id, subject);
        let cursor = Some(counters_from_day(group.as_slice(), from));
        // One key per day and shard. The slack is what stops a second writer
        // silently truncating the window.
        let limit: usize = days as usize * SHARD_SCAN_SLACK;
        let last: u16 = from.saturating_add(days - 1);
        let page = match self.page(group.as_slice(), as_bytes(&cursor), limit) {
            Ok(page) => page,
            Err(e) => return Err(e),
        };
        let ghost rows = page_entries(page.entries@);
        let mut ended: bool = false;
        let mut i: usize = 0;
        assert(rows.subrange(0, 0) =~= Seq::<Entry>::empty());
        while i < page.entries.len() && !ended
            invariant
                i <= page.entries@.len(),
                window(group@, rows.subrange(0, i as int), last) == Ok::<
                    (Seq<(u16, BucketView)>, bool),
                    Fault,
                >((out.deep_view(), ended)),
            decreases page.entries@.len() - i,
        {
            let (key, value) = (page.entries[i].0.as_slice(), page.entries[i].1.as_slice());
            proof {
                assert(rows.subrange(0, i + 1).drop_last() =~= rows.subrange(0, i as int));
                assert(rows.subrange(0, i + 1).last() == (key@, value@));
            }
            // A key shaped unlike the group it was scanned out of can only be
            // corruption, and one bad row must not fail a wall.
            if let Some((day, _)) = counter_suffix(key, group.as_slice()) {
                if day > last {
                    ended = true;
                } else {
                    let bucket = match decode_bucket(value) {
                        Ok(b) => b,
                        Err(e) => {
                            proof {
                                lemma_window_settled(group@, rows, last, i + 1);
                            }
                            return Err(e);
                        },
                    };
                    let ghost seen_days = out.deep_view();
                    let n: usize = out.len();
                    if n > 0 && out[n - 1].day == day {
                        // Shards of one day are adjacent, so summing them is a
                        // fold over the run.
                        assert(seen_days.last() == out@[n - 1].deep_view());
                        let mut prev = match out.pop() {
                            Some(prev) => prev,
                            None => return Ok(out),
                        };
                        assert(out.deep_view() =~= seen_days.drop_last());
                        prev.bucket.merge(&bucket);
                        out.push(prev);
                        assert(out.deep_view() =~= seen_days.drop_last().push(prev.deep_view()));
                    } else {
                        proof {
                            if n > 0 {
                                assert(seen_days.last() == out@[n - 1].deep_view());
                            }
                        }
                        let fresh = CountDay { day, bucket };
                        out.push(fresh);
                        assert(out.deep_view() =~= seen_days.push(fresh.deep_view()));
                    }
                }
            }
            i += 1;
        }
        proof {
            if ended {
                lemma_window_settled(group@, rows, last, i as int);
            } else {
                assert(rows.subrange(0, i as int) =~= rows);
            }
        }
        Ok(out)
    }
}

} // verus!
