//! What holds of the pull counts over several calls.
use vstd::prelude::*;

use crate::bytes::{has_prefix, lex_common_head, lex_irreflexive, lex_lt};
use crate::keys::{
    counter_key, counter_suffix_of, counter_suffix_reads_the_key, counters_from_day_key,
    counters_from_day_starts_the_window, repo_name_key, u16_bytes,
};
use crate::meta::engine::{
    applied, applied_by_last_word, in_range, last_word, lemma_listing, lemma_listing_is_complete,
    lemma_lookup_at, lemma_table_key_is_entry, listing, lookup, ordered, table, Entry,
};
use crate::registry::codec::{counters_bytes, counters_wire};
use crate::registry::counters::{
    a_flush_accumulates, a_window_holds_its_days_in_order, all_read_back, bucket_after, bucket_at,
    bucket_key, bucket_write, bucket_writes, counts_answer, deltas_of, flush_plan, last_day,
    lemma_days_in_order, lemma_divides, lemma_no_deltas, lemma_rank, lemma_suffix_is_key,
    lemma_touched, lemma_window_in_order, lemma_writes_say, new_bucket, subject_group, touched,
    window, BucketName, DeltaView, SubjectView, SHARD_SCAN_SLACK,
};
use crate::registry::error::Fault;
use crate::registry::registry::{repo_lookup, shown};
use crate::types::{bucket_sum, BucketView, RepoId};

verus! {

/// The name stands for a repository.
pub open spec fn has_repo(es: Seq<Entry>, name: Seq<char>) -> bool {
    repo_lookup(es, name) matches Ok(Some(_))
}

/// The buckets that some deltas name, of the repositories that are there.
pub open spec fn named_buckets(es: Seq<Entry>, ds: Seq<DeltaView>) -> Set<BucketName> {
    ds.map_values(|d: DeltaView| d.0).to_set().filter(|n: BucketName| has_repo(es, n.0))
}

/// No two names stand for one repository.
pub open spec fn one_name_each(es: Seq<Entry>) -> bool {
    forall|x: Seq<char>, y: Seq<char>|
        #![trigger repo_lookup(es, x), repo_lookup(es, y)]
        has_repo(es, x) && repo_lookup(es, x) == repo_lookup(es, y) ==> x == y
}

// --- how much a flush writes ------------------------------------------------------

/// The touched buckets are those of the deltas and no others.
proof fn lemma_touched_is_named(ds: Seq<DeltaView>, name: BucketName)
    ensures
        touched(ds).contains(name) <==> exists|i: int| 0 <= i < ds.len() && (#[trigger] ds[i]).0 == name,
    decreases ds.len(),
{
    lemma_touched(ds);
    if touched(ds).contains(name) {
        let head = ds.drop_last();
        let names = touched(head);
        let last = ds.last().0;
        lemma_touched(head);
        lemma_touched_is_named(head, name);
        if last == name {
            assert(ds[ds.len() - 1].0 == name);
        } else {
            if !names.contains(last) {
                let p = lemma_divides(names, last);
                lemma_rank(names, last, p);
                let all = names.insert(p, last);
                let x = choose|x: int| 0 <= x < all.len() && all[x] == name;
                if x < p {
                    assert(names[x] == name);
                } else {
                    assert(names[x - 1] == name);
                }
            }
            assert(names.contains(name));
            let i = choose|i: int| 0 <= i < head.len() && (#[trigger] head[i]).0 == name;
            assert(ds[i].0 == name);
        }
    }
}

proof fn lemma_writes_count(es: Seq<Entry>, ds: Seq<DeltaView>, names: Seq<BucketName>)
    requires
        names.no_duplicates(),
    ensures
        bucket_writes(es, ds, names) matches Ok(ops) ==> ops.len() == names.to_set().filter(
            |n: BucketName| has_repo(es, n.0),
        ).len(),
    decreases names.len(),
{
    let there = |n: BucketName| has_repo(es, n.0);
    vstd::seq_lib::seq_to_set_is_finite(names);
    vstd::seq_lib::seq_to_set_is_finite(names.drop_last());
    if names.len() == 0 {
        assert(names.to_set().filter(there) =~= Set::<BucketName>::empty());
    } else {
        let head = names.drop_last();
        let last = names.last();
        lemma_writes_count(es, ds, head);
        assert(!head.contains(last));
        assert forall|n: BucketName| names.to_set().contains(n) == (head.to_set().contains(n) || n
            == last) by {
            if head.contains(n) {
                let x = choose|x: int| 0 <= x < head.len() && head[x] == n;
                assert(names[x] == n);
            }
            if names.contains(n) && n != last {
                let x = choose|x: int| 0 <= x < names.len() && names[x] == n;
                assert(head[x] == n);
            }
            assert(names[names.len() - 1] == last);
        }
        if has_repo(es, last.0) {
            assert(names.to_set().filter(there) =~= head.to_set().filter(there).insert(last));
        } else {
            assert(names.to_set().filter(there) =~= head.to_set().filter(there));
        }
    }
}

/// A flush writes one value for each bucket that its deltas name in a repository
/// that is there, and nothing more, however many deltas share a bucket.
pub proof fn a_flush_writes_each_bucket_once(es: Seq<Entry>, ds: Seq<DeltaView>)
    ensures
        flush_plan(es, ds) matches Ok(ops) ==> ops.len() == named_buckets(es, ds).len(),
{
    let names = touched(ds);
    lemma_touched(ds);
    lemma_writes_count(es, ds, names);
    let own = ds.map_values(|d: DeltaView| d.0);
    assert forall|n: BucketName| names.to_set().contains(n) == own.to_set().contains(n) by {
        lemma_touched_is_named(ds, n);
        if own.contains(n) {
            let i = choose|i: int| 0 <= i < own.len() && own[i] == n;
            assert(ds[i].0 == n);
        }
        if names.contains(n) {
            let i = choose|i: int| 0 <= i < ds.len() && (#[trigger] ds[i]).0 == n;
            assert(own[i] == n);
        }
    }
    assert(names.to_set() =~= own.to_set());
}

// --- what a flush adds ------------------------------------------------------------

/// What some deltas count in one hour: manifest pulls, blob pulls and bytes.
pub open spec fn counted(ds: Seq<DeltaView>, hour: int) -> (int, int, int)
    decreases ds.len(),
{
    if ds.len() == 0 {
        (0, 0, 0)
    } else {
        let (m, b, o) = counted(ds.drop_last(), hour);
        let d = ds.last().1;
        if d.0 == hour {
            (m + d.1, b + d.2, o + d.3)
        } else {
            (m, b, o)
        }
    }
}

/// A number held at the top.
pub open spec fn capped(n: int, top: int) -> int {
    if n > top {
        top
    } else {
        n
    }
}

/// Nothing is taken away.
pub open spec fn no_less(ds: Seq<DeltaView>) -> bool {
    forall|i: int| 0 <= i < ds.len() ==> (#[trigger] ds[i]).1.1 >= 0 && ds[i].1.2 >= 0 && ds[i].1.3 >= 0
}

/// A bucket has the hours of a day.
pub open spec fn is_day(b: BucketView) -> bool {
    b.0.len() == 24 && b.1.len() == 24 && b.2.len() == 24
}

/// Each hour of a bucket grows by what its deltas count in that hour, and is held
/// at the top where that is too much.
proof fn lemma_hour(b: BucketView, ds: Seq<DeltaView>, hour: int)
    requires
        is_day(b),
        0 <= hour < 24,
        no_less(ds),
    ensures
        is_day(bucket_after(b, ds)),
        counted(ds, hour).0 >= 0,
        counted(ds, hour).1 >= 0,
        counted(ds, hour).2 >= 0,
        bucket_after(b, ds).0[hour] == capped(b.0[hour] + counted(ds, hour).0, u32::MAX as int),
        bucket_after(b, ds).1[hour] == capped(b.1[hour] + counted(ds, hour).1, u32::MAX as int),
        bucket_after(b, ds).2[hour] == capped(b.2[hour] + counted(ds, hour).2, u64::MAX as int),
    decreases ds.len(),
{
    if ds.len() > 0 {
        let head = ds.drop_last();
        assert forall|i: int| 0 <= i < head.len() implies (#[trigger] head[i]).1.1 >= 0
            && head[i].1.2 >= 0 && head[i].1.3 >= 0 by {
            assert(ds[i] == head[i]);
        }
        assert(ds[ds.len() - 1] == ds.last());
        lemma_hour(b, head, hour);
    }
}

/// A flush adds to each hour of a bucket what the bucket's own deltas count in that
/// hour, and nothing else; a sum that is too large is held at the top.
pub proof fn a_flush_counts_each_hour(
    es: Seq<Entry>,
    ds: Seq<DeltaView>,
    later: Seq<Entry>,
    id: RepoId,
    name: BucketName,
    hour: int,
)
    requires
        flush_plan(es, ds) is Ok,
        table(later) == applied(table(es), flush_plan(es, ds)->Ok_0),
        all_read_back(es, ds, touched(ds)),
        one_name_each(es),
        repo_lookup(es, name.0) == Ok::<Option<RepoId>, Fault>(Some(id)),
        bucket_at(es, bucket_key(id, name)) matches Ok(b) && is_day(b),
        no_less(ds),
        0 <= hour < 24,
    ensures
        ({
            let before = bucket_at(es, bucket_key(id, name))->Ok_0;
            let more = counted(deltas_of(ds, name), hour);
            bucket_at(later, bucket_key(id, name)) matches Ok(now) && now.0[hour] == capped(
                before.0[hour] + more.0,
                u32::MAX as int,
            ) && now.1[hour] == capped(before.1[hour] + more.1, u32::MAX as int) && now.2[hour]
                == capped(before.2[hour] + more.2, u64::MAX as int)
        }),
{
    let before = bucket_at(es, bucket_key(id, name))->Ok_0;
    let own = deltas_of(ds, name);
    assert forall|other: Seq<char>|
        repo_lookup(es, other) == Ok::<Option<RepoId>, Fault>(Some(id)) implies other == name.0 by {
        assert(repo_lookup(es, other) == repo_lookup(es, name.0));
    }
    a_flush_accumulates(es, ds, later, id, name);
    if touched(ds).contains(name) {
        assert forall|i: int| 0 <= i < own.len() implies (#[trigger] own[i]).1.1 >= 0
            && own[i].1.2 >= 0 && own[i].1.3 >= 0 by {
            lemma_own_is_among(ds, name, i);
            let x = choose|x: int| 0 <= x < ds.len() && ds[x] == own[i];
            assert(ds[x].1.1 >= 0);
        }
        lemma_hour(before, own, hour);
    } else {
        lemma_no_deltas(ds, name);
    }
}

/// A bucket's deltas are among all deltas.
proof fn lemma_own_is_among(ds: Seq<DeltaView>, name: BucketName, i: int)
    requires
        0 <= i < deltas_of(ds, name).len(),
    ensures
        ds.contains(deltas_of(ds, name)[i]),
    decreases ds.len(),
{
    reveal(Seq::filter);
    if ds.len() > 0 {
        let head = ds.drop_last();
        assert(ds[ds.len() - 1] == ds.last());
        if i < deltas_of(head, name).len() {
            lemma_own_is_among(head, name, i);
            let x = choose|x: int| 0 <= x < head.len() && head[x] == deltas_of(head, name)[i];
            assert(ds[x] == head[x]);
        }
    }
}

/// Deltas added in two runs are deltas added in one.
proof fn lemma_after_in_two(b: BucketView, x: Seq<DeltaView>, y: Seq<DeltaView>)
    ensures
        bucket_after(bucket_after(b, x), y) == bucket_after(b, x + y),
    decreases y.len(),
{
    if y.len() == 0 {
        assert(x + y =~= x);
    } else {
        assert((x + y).drop_last() =~= x + y.drop_last());
        lemma_after_in_two(b, x, y.drop_last());
    }
}

// --- two flushes ------------------------------------------------------------------

/// A flush says nothing of a key that is none of its buckets'.
proof fn lemma_writes_are_silent(
    es: Seq<Entry>,
    ds: Seq<DeltaView>,
    names: Seq<BucketName>,
    k: Seq<u8>,
)
    requires
        bucket_writes(es, ds, names) is Ok,
        forall|i: int|
            0 <= i < names.len() ==> (repo_lookup(es, (#[trigger] names[i]).0) matches Ok(Some(id))
                ==> bucket_key(id, names[i]) != k),
    ensures
        last_word(bucket_writes(es, ds, names)->Ok_0, k) is None,
    decreases names.len(),
{
    if names.len() > 0 {
        let head = names.drop_last();
        assert forall|i: int| 0 <= i < head.len() implies (repo_lookup(
            es,
            (#[trigger] head[i]).0,
        ) matches Ok(Some(id)) ==> bucket_key(id, head[i]) != k) by {
            assert(names[i] == head[i]);
        }
        lemma_writes_are_silent(es, ds, head, k);
        let done = bucket_writes(es, ds, head)->Ok_0;
        let more = bucket_write(es, ds, names.last())->Ok_0;
        assert(names[names.len() - 1] == names.last());
        if more.len() == 0 {
            assert(done + more =~= done);
        } else {
            assert((done + more).drop_last() =~= done);
        }
    }
}

/// A flush plans something exactly where each of its buckets can be read.
proof fn lemma_writes_succeed(es: Seq<Entry>, ds: Seq<DeltaView>, names: Seq<BucketName>)
    ensures
        bucket_writes(es, ds, names) is Ok <==> forall|i: int|
            0 <= i < names.len() ==> readable(es, #[trigger] names[i]),
    decreases names.len(),
{
    if names.len() > 0 {
        let head = names.drop_last();
        lemma_writes_succeed(es, ds, head);
        assert(names[names.len() - 1] == names.last());
        if bucket_writes(es, ds, names) is Ok {
            assert forall|i: int| 0 <= i < names.len() implies readable(es, #[trigger] names[i]) by {
                if i < head.len() {
                    assert(head[i] == names[i]);
                }
            }
        } else if forall|i: int| 0 <= i < names.len() ==> readable(es, #[trigger] names[i]) {
            assert forall|i: int| 0 <= i < head.len() implies readable(es, #[trigger] head[i]) by {
                assert(head[i] == names[i]);
            }
        }
    }
}

/// The bucket's repository, and what is stored for it, can be read.
spec fn readable(es: Seq<Entry>, name: BucketName) -> bool {
    match repo_lookup(es, name.0) {
        Err(_) => false,
        Ok(None) => true,
        Ok(Some(id)) => bucket_at(es, bucket_key(id, name)) is Ok,
    }
}

/// A flush leaves the repositories as they were: what is counted for a name that
/// stands for none does not bring one into being.
pub proof fn a_flush_makes_no_repository(
    es: Seq<Entry>,
    ds: Seq<DeltaView>,
    later: Seq<Entry>,
    name: Seq<char>,
)
    requires
        flush_plan(es, ds) is Ok,
        table(later) == applied(table(es), flush_plan(es, ds)->Ok_0),
    ensures
        repo_lookup(later, name) == repo_lookup(es, name),
{
    let k = repo_name_key(name);
    let names = touched(ds);
    assert forall|i: int| 0 <= i < names.len() implies (repo_lookup(
        es,
        (#[trigger] names[i]).0,
    ) matches Ok(Some(id)) ==> bucket_key(id, names[i]) != k) by {
        if let Ok(Some(id)) = repo_lookup(es, names[i].0) {
            assert(bucket_key(id, names[i])[0] != k[0]);
        }
    }
    lemma_writes_are_silent(es, ds, names, k);
    applied_by_last_word(table(es), flush_plan(es, ds)->Ok_0, k);
}

/// What a flush leaves against a bucket's key.
proof fn lemma_flushed_value(
    es: Seq<Entry>,
    ds: Seq<DeltaView>,
    id: RepoId,
    name: BucketName,
)
    requires
        flush_plan(es, ds) is Ok,
        one_name_each(es),
        repo_lookup(es, name.0) == Ok::<Option<RepoId>, Fault>(Some(id)),
    ensures
        last_word(flush_plan(es, ds)->Ok_0, bucket_key(id, name)) == if touched(ds).contains(name) {
            Some(Some(counters_bytes(new_bucket(es, ds, id, name))))
        } else {
            None
        },
{
    let names = touched(ds);
    assert forall|i: int|
        0 <= i < names.len() && repo_lookup(es, (#[trigger] names[i]).0) == Ok::<
            Option<RepoId>,
            Fault,
        >(Some(id)) implies names[i].0 == name.0 by {}
    lemma_writes_say(es, ds, names, id, name);
}

/// Flushing some deltas and then some others is flushing them all at once: it
/// succeeds on the same stores, and leaves the same store.
pub proof fn flushes_add_up(es: Seq<Entry>, a: Seq<DeltaView>, b: Seq<DeltaView>, mid: Seq<Entry>)
    requires
        one_name_each(es),
        flush_plan(es, a) is Ok,
        all_read_back(es, a, touched(a)),
        table(mid) == applied(table(es), flush_plan(es, a)->Ok_0),
    ensures
        flush_plan(mid, b) is Ok <==> flush_plan(es, a + b) is Ok,
        flush_plan(mid, b) is Ok ==> applied(table(mid), flush_plan(mid, b)->Ok_0) == applied(
            table(es),
            flush_plan(es, a + b)->Ok_0,
        ),
{
    assert forall|n: Seq<char>| #[trigger] repo_lookup(mid, n) == repo_lookup(es, n) by {
        a_flush_makes_no_repository(es, a, mid, n);
    }
    assert forall|n: BucketName|
        #![trigger touched(a + b).contains(n)]
        #![trigger touched(a).contains(n)]
        #![trigger touched(b).contains(n)]
        touched(a + b).contains(n) == (touched(a).contains(n) || touched(b).contains(n)) by {
        lemma_touched_in_two(a, b, n);
    }
    lemma_writes_succeed(es, a, touched(a));
    lemma_writes_succeed(es, a + b, touched(a + b));
    lemma_writes_succeed(mid, b, touched(b));
    // Whatever `b` touches can be read before `a` exactly where it can afterwards.
    assert forall|n: BucketName| #[trigger] readable(mid, n) == readable(es, n) by {
        lemma_readable_after(es, a, mid, n);
    }
    if flush_plan(mid, b) is Ok {
        assert forall|i: int| 0 <= i < touched(a + b).len() implies readable(
            es,
            #[trigger] touched(a + b)[i],
        ) by {
            let n = touched(a + b)[i];
            assert(touched(a + b).contains(n));
            if touched(a).contains(n) {
                let x = choose|x: int| 0 <= x < touched(a).len() && touched(a)[x] == n;
                assert(readable(es, touched(a)[x]));
            } else {
                let x = choose|x: int| 0 <= x < touched(b).len() && touched(b)[x] == n;
                assert(readable(mid, touched(b)[x]));
            }
        }
        assert(flush_plan(es, a + b) is Ok);
        lemma_same_store(es, a, b, mid);
    } else if flush_plan(es, a + b) is Ok {
        assert forall|i: int| 0 <= i < touched(b).len() implies readable(
            mid,
            #[trigger] touched(b)[i],
        ) by {
            let n = touched(b)[i];
            assert(touched(b).contains(n));
            let x = choose|x: int| 0 <= x < touched(a + b).len() && touched(a + b)[x] == n;
            assert(readable(es, touched(a + b)[x]));
        }
    }
}

proof fn lemma_touched_in_two(a: Seq<DeltaView>, b: Seq<DeltaView>, n: BucketName)
    ensures
        touched(a + b).contains(n) == (touched(a).contains(n) || touched(b).contains(n)),
{
    let ab = a + b;
    lemma_touched_is_named(a, n);
    lemma_touched_is_named(b, n);
    lemma_touched_is_named(ab, n);
    if touched(a).contains(n) {
        let i = choose|i: int| 0 <= i < a.len() && (#[trigger] a[i]).0 == n;
        assert(ab[i].0 == n);
    }
    if touched(b).contains(n) {
        let i = choose|i: int| 0 <= i < b.len() && (#[trigger] b[i]).0 == n;
        assert(ab[a.len() + i].0 == n);
    }
    if touched(ab).contains(n) {
        let i = choose|i: int| 0 <= i < ab.len() && (#[trigger] ab[i]).0 == n;
        if i < a.len() {
            assert(a[i].0 == n);
        } else {
            assert(b[i - a.len()].0 == n);
        }
    }
}

proof fn lemma_readable_after(es: Seq<Entry>, a: Seq<DeltaView>, mid: Seq<Entry>, n: BucketName)
    requires
        one_name_each(es),
        flush_plan(es, a) is Ok,
        all_read_back(es, a, touched(a)),
        table(mid) == applied(table(es), flush_plan(es, a)->Ok_0),
    ensures
        readable(mid, n) == readable(es, n),
        repo_lookup(es, n.0) matches Ok(Some(id)) ==> bucket_at(mid, bucket_key(id, n)) == if touched(
            a,
        ).contains(n) {
            Ok::<BucketView, Fault>(new_bucket(es, a, id, n))
        } else {
            bucket_at(es, bucket_key(id, n))
        },
{
    a_flush_makes_no_repository(es, a, mid, n.0);
    if let Ok(Some(id)) = repo_lookup(es, n.0) {
        lemma_flushed_value(es, a, id, n);
        applied_by_last_word(table(es), flush_plan(es, a)->Ok_0, bucket_key(id, n));
        if touched(a).contains(n) {
            let x = choose|x: int| 0 <= x < touched(a).len() && touched(a)[x] == n;
            assert(touched(a)[x] == n);
            lemma_writes_succeed(es, a, touched(a));
            assert(readable(es, touched(a)[x]));
        }
    }
}

proof fn lemma_same_store(es: Seq<Entry>, a: Seq<DeltaView>, b: Seq<DeltaView>, mid: Seq<Entry>)
    requires
        one_name_each(es),
        flush_plan(es, a) is Ok,
        all_read_back(es, a, touched(a)),
        table(mid) == applied(table(es), flush_plan(es, a)->Ok_0),
        flush_plan(mid, b) is Ok,
        flush_plan(es, a + b) is Ok,
    ensures
        applied(table(mid), flush_plan(mid, b)->Ok_0) == applied(
            table(es),
            flush_plan(es, a + b)->Ok_0,
        ),
{
    let one = applied(table(es), flush_plan(es, a + b)->Ok_0);
    let two = applied(table(mid), flush_plan(mid, b)->Ok_0);
    assert forall|k: Seq<u8>|
        #![trigger one.dom().contains(k)]
        #![trigger two.dom().contains(k)]
        #![trigger one[k]]
        one.contains_key(k) == two.contains_key(k) && (one.contains_key(k) ==> one[k] == two[k]) by {
        lemma_same_value(es, a, b, mid, k);
    }
    assert(one.dom() =~= two.dom());
    assert(one =~= two);
}

proof fn lemma_same_value(
    es: Seq<Entry>,
    a: Seq<DeltaView>,
    b: Seq<DeltaView>,
    mid: Seq<Entry>,
    k: Seq<u8>,
)
    requires
        one_name_each(es),
        flush_plan(es, a) is Ok,
        all_read_back(es, a, touched(a)),
        table(mid) == applied(table(es), flush_plan(es, a)->Ok_0),
        flush_plan(mid, b) is Ok,
        flush_plan(es, a + b) is Ok,
    ensures
        ({
            let one = applied(table(es), flush_plan(es, a + b)->Ok_0);
            let two = applied(table(mid), flush_plan(mid, b)->Ok_0);
            one.contains_key(k) == two.contains_key(k) && (one.contains_key(k) ==> one[k]
                == two[k])
        }),
{
    let all = flush_plan(es, a + b)->Ok_0;
    let (x, y) = (flush_plan(es, a)->Ok_0, flush_plan(mid, b)->Ok_0);
    assert forall|n: Seq<char>| #[trigger] repo_lookup(mid, n) == repo_lookup(es, n) by {
        a_flush_makes_no_repository(es, a, mid, n);
    }
    assert(one_name_each(mid)) by {
        assert forall|p: Seq<char>, q: Seq<char>|
            #![trigger repo_lookup(mid, p), repo_lookup(mid, q)]
            has_repo(mid, p) && repo_lookup(mid, p) == repo_lookup(mid, q) implies p == q by {
            assert(repo_lookup(es, p) == repo_lookup(es, q));
        }
    }
    applied_by_last_word(table(es), x, k);
    applied_by_last_word(table(mid), y, k);
    applied_by_last_word(table(es), all, k);
    if exists|n: BucketName| #[trigger] is_bucket(es, n, k) {
        let n = choose|n: BucketName| #[trigger] is_bucket(es, n, k);
        let id = repo_lookup(es, n.0)->Ok_0->0;
        lemma_flushed_value(es, a, id, n);
        lemma_flushed_value(mid, b, id, n);
        lemma_flushed_value(es, a + b, id, n);
        lemma_touched_in_two(a, b, n);
        lemma_readable_after(es, a, mid, n);
        let start = bucket_at(es, k)->Ok_0;
        let (p, q) = (deltas_of(a, n), deltas_of(b, n));
        Seq::<DeltaView>::filter_distributes_over_add(a, b, |d: DeltaView| d.0 == n);
        assert(deltas_of(a + b, n) == p + q);
        lemma_after_in_two(start, p, q);
        if !touched(a).contains(n) {
            lemma_no_deltas(a, n);
            assert(p + q =~= q);
        }
        if !touched(b).contains(n) {
            lemma_no_deltas(b, n);
            assert(p + q =~= p);
        }
    } else {
        assert forall|n: BucketName| (#[trigger] repo_lookup(es, n.0) matches Ok(Some(id))
            ==> bucket_key(id, n) != k) by {
            assert(!is_bucket(es, n, k));
        }
        lemma_writes_are_silent(es, a, touched(a), k);
        lemma_writes_are_silent(mid, b, touched(b), k);
        lemma_writes_are_silent(es, a + b, touched(a + b), k);
    }
}

/// The key is a bucket's.
spec fn is_bucket(es: Seq<Entry>, n: BucketName, k: Seq<u8>) -> bool {
    repo_lookup(es, n.0) matches Ok(Some(id)) && bucket_key(id, n) == k
}

// --- what a window shows ----------------------------------------------------------

/// The buckets that a run holds of one day, over all shards, summed; `None` where
/// it holds none.
pub open spec fn day_sum(group: Seq<u8>, rows: Seq<Entry>, day: u16) -> Option<BucketView>
    decreases rows.len(),
{
    if rows.len() == 0 {
        None
    } else {
        let before = day_sum(group, rows.drop_last(), day);
        match (counter_suffix_of(rows.last().0, group), counters_wire(rows.last().1)) {
            (Some((d, _)), Some(b)) if d == day => match before {
                Some(sum) => Some(bucket_sum(sum, b)),
                None => Some(b),
            },
            _ => before,
        }
    }
}

/// The days of a window are the days stored in it, each with its shards summed.
proof fn lemma_window_sums(group: Seq<u8>, rows: Seq<Entry>, from: u16, last: u16)
    requires
        ordered(rows),
        forall|i: int|
            0 <= i < rows.len() ==> lex_lt(
                counters_from_day_key(group, from),
                #[trigger] rows[i].0,
            ),
    ensures
        window(group, rows, last) matches Ok((out, ended)) ==> {
            &&& forall|day: u16, total: BucketView|
                day <= last ==> (#[trigger] out.contains((day, total)) <==> day_sum(group, rows, day)
                    == Some(total))
            &&& ended ==> exists|x: int|
                0 <= x < rows.len() && #[trigger] counter_suffix_of(rows[x].0, group) is Some && (
                counter_suffix_of(rows[x].0, group)->0).0 > last
        },
    decreases rows.len(),
{
    if rows.len() > 0 {
        let head = rows.drop_last();
        let n = rows.len() - 1;
        assert forall|i: int, j: int| 0 <= i < j < head.len() implies lex_lt(
            #[trigger] head[i].0,
            #[trigger] head[j].0,
        ) by {
            assert(lex_lt(rows[i].0, rows[j].0));
        }
        assert forall|i: int| 0 <= i < head.len() implies lex_lt(
            counters_from_day_key(group, from),
            #[trigger] head[i].0,
        ) by {
            assert(rows[i] == head[i]);
        }
        lemma_window_sums(group, head, from, last);
        lemma_window_in_order(group, head, from, last);
        lemma_window_in_order(group, rows, from, last);
        if let Ok((out, ended)) = window(group, rows, last) {
            let (before, over) = window(group, head, last)->Ok_0;
            if over {
                let x = choose|x: int|
                    0 <= x < head.len() && #[trigger] counter_suffix_of(head[x].0, group) is Some && (
                    counter_suffix_of(head[x].0, group)->0).0 > last;
                assert(counter_suffix_of(rows[x].0, group) is Some);
                lemma_suffix_is_key(rows[x].0, group);
                lemma_suffix_is_key(rows[n].0, group);
                assert(lex_lt(rows[x].0, rows[n].0));
                if counter_suffix_of(rows[n].0, group) is Some {
                    lemma_days_in_order(
                        group,
                        counter_suffix_of(rows[x].0, group)->0,
                        counter_suffix_of(rows[n].0, group)->0,
                    );
                }
            } else if counter_suffix_of(rows[n].0, group) is Some {
                let day = (counter_suffix_of(rows[n].0, group)->0).0;
                if day <= last {
                    let b = counters_wire(rows[n].1)->0;
                    lemma_one_more_day(before, out, day, b);
                    if before.len() > 0 && before.last().0 == day {
                        assert(before[before.len() - 1] == (day, before.last().1));
                        assert(before.contains((day, before.last().1)));
                    } else {
                        if day_sum(group, head, day) is Some {
                            let sum = day_sum(group, head, day)->0;
                            assert(before.contains((day, sum)));
                            let y = choose|y: int|
                                0 <= y < before.len() && before[y] == (day, sum);
                            assert(out[y].0 < out[out.len() - 1].0);
                        }
                    }
                    assert forall|d: u16, total: BucketView| d <= last implies (
                    #[trigger] out.contains((d, total)) <==> day_sum(group, rows, d) == Some(
                        total,
                    )) by {
                        if d != day {
                            assert(out.contains((d, total)) == before.contains((d, total)));
                        }
                    }
                }
            }
        }
    }
}

/// A series with a day counted in: that day's total is new, and every other day's
/// is as it was.
proof fn lemma_one_more_day(
    before: Seq<(u16, BucketView)>,
    out: Seq<(u16, BucketView)>,
    day: u16,
    b: BucketView,
)
    requires
        forall|i: int, j: int|
            0 <= i < j < out.len() ==> (#[trigger] out[i]).0 < (#[trigger] out[j]).0,
        out == if before.len() > 0 && before.last().0 == day {
            before.drop_last().push((day, bucket_sum(before.last().1, b)))
        } else {
            before.push((day, b))
        },
    ensures
        forall|d: u16, total: BucketView|
            d != day ==> #[trigger] out.contains((d, total)) == before.contains((d, total)),
        forall|total: BucketView| #[trigger]
            out.contains((day, total)) <==> total == out.last().1,
{
    let n = out.len() - 1;
    assert forall|d: u16, total: BucketView| d != day implies #[trigger] out.contains((d, total))
        == before.contains((d, total)) by {
        if out.contains((d, total)) {
            let x = choose|x: int| 0 <= x < out.len() && out[x] == (d, total);
            assert(before[x] == (d, total));
        }
        if before.contains((d, total)) {
            let x = choose|x: int| 0 <= x < before.len() && before[x] == (d, total);
            assert(out[x] == (d, total));
        }
    }
    assert forall|total: BucketView| #[trigger]
        out.contains((day, total)) <==> total == out.last().1 by {
        assert(out[n] == (day, out.last().1));
        if out.contains((day, total)) {
            let x = choose|x: int| 0 <= x < out.len() && out[x] == (day, total);
            if x < n {
                assert(out[x].0 < out[n].0);
            }
        }
    }
}

/// A window leaves nothing out: a day inside it is in the answer exactly where the
/// scan found a bucket of that day, with the total of the day's shards. Where the
/// scan is not cut short by its limit, those are all the buckets stored.
pub proof fn a_window_holds_every_stored_day(
    es: Seq<Entry>,
    repo: Seq<char>,
    id: RepoId,
    subject: SubjectView,
    from: u16,
    days: u16,
)
    requires
        ordered(es),
        days > 0,
        repo_lookup(es, repo) == Ok::<Option<RepoId>, Fault>(Some(id)),
        counts_answer(es, repo, subject, from, days) is Ok,
    ensures
        ({
            let out = counts_answer(es, repo, subject, from, days)->Ok_0;
            let group = subject_group(id, subject);
            let list = listing(es, group, Some(counters_from_day_key(group, from)));
            let limit = (days * SHARD_SCAN_SLACK) as nat;
            &&& forall|day: u16, total: BucketView|
                from <= day <= last_day(from, days) ==> (#[trigger] out.contains((day, total))
                    <==> day_sum(group, shown(list, limit), day) == Some(total))
            &&& list.len() <= limit ==> forall|day: u16, shard: u16|
                from <= day <= last_day(from, days) && #[trigger] lookup(
                    es,
                    counter_key(group, day, shard),
                ) is Some ==> exists|i: int| 0 <= i < out.len() && (#[trigger] out[i]).0 == day
        }),
{
    let out = counts_answer(es, repo, subject, from, days)->Ok_0;
    let group = subject_group(id, subject);
    let cursor = counters_from_day_key(group, from);
    let list = listing(es, group, Some(cursor));
    let limit = (days * SHARD_SCAN_SLACK) as nat;
    let rows = shown(list, limit);
    let last = last_day(from, days);
    lemma_listing(es, group, Some(cursor));
    assert forall|i: int| 0 <= i < rows.len() implies lex_lt(cursor, #[trigger] rows[i].0) by {
        assert(rows[i] == list[i]);
        assert(in_range(list[i].0, group, Some(cursor)));
    }
    assert forall|i: int, j: int| 0 <= i < j < rows.len() implies lex_lt(
        #[trigger] rows[i].0,
        #[trigger] rows[j].0,
    ) by {
        assert(lex_lt(list[i].0, list[j].0));
    }
    lemma_window_sums(group, rows, from, last);
    if list.len() <= limit {
        assert(rows =~= list);
        assert forall|day: u16, shard: u16|
            from <= day <= last && #[trigger] lookup(
                es,
                counter_key(group, day, shard),
            ) is Some implies exists|i: int| 0 <= i < out.len() && (#[trigger] out[i]).0 == day by {
            let k = counter_key(group, day, shard);
            lemma_table_key_is_entry(es, k);
            let x = choose|x: int| 0 <= x < es.len() && #[trigger] es[x] == (k, table(es)[k]);
            counters_from_day_starts_the_window(group, from, day, shard);
            counter_suffix_reads_the_key(group, day, shard);
            assert(k.subrange(0, group.len() as int) =~= group);
            lemma_listing_is_complete(es, group, Some(cursor), x);
            let y = choose|y: int| 0 <= y < list.len() && list[y] == es[x];
            lemma_day_is_summed(group, rows, from, last, y);
            let total = day_sum(group, rows, day)->0;
            assert(out.contains((day, total)));
            let i = choose|i: int| 0 <= i < out.len() && out[i] == (day, total);
            assert(out[i].0 == day);
        }
    }
}

/// A row of the window is summed into its day.
proof fn lemma_day_is_summed(group: Seq<u8>, rows: Seq<Entry>, from: u16, last: u16, y: int)
    requires
        0 <= y < rows.len(),
        ordered(rows),
        forall|i: int|
            0 <= i < rows.len() ==> lex_lt(
                counters_from_day_key(group, from),
                #[trigger] rows[i].0,
            ),
        window(group, rows, last) is Ok,
        counter_suffix_of(rows[y].0, group) matches Some((day, _)) && day <= last,
    ensures
        day_sum(group, rows, (counter_suffix_of(rows[y].0, group)->0).0) is Some,
    decreases rows.len(),
{
    let head = rows.drop_last();
    assert forall|i: int, j: int| 0 <= i < j < head.len() implies lex_lt(
        #[trigger] head[i].0,
        #[trigger] head[j].0,
    ) by {
        assert(lex_lt(rows[i].0, rows[j].0));
    }
    assert forall|i: int| 0 <= i < head.len() implies lex_lt(
        counters_from_day_key(group, from),
        #[trigger] head[i].0,
    ) by {
        assert(rows[i] == head[i]);
    }
    if y < head.len() {
        assert(head[y] == rows[y]);
        lemma_day_is_summed(group, head, from, last, y);
    } else {
        lemma_window_sums(group, head, from, last);
        if (window(group, head, last)->Ok_0).1 {
            let x = choose|x: int|
                0 <= x < head.len() && #[trigger] counter_suffix_of(head[x].0, group) is Some && (
                counter_suffix_of(head[x].0, group)->0).0 > last;
            lemma_suffix_is_key(rows[x].0, group);
            lemma_suffix_is_key(rows[y].0, group);
            assert(lex_lt(rows[x].0, rows[y].0));
            lemma_days_in_order(
                group,
                counter_suffix_of(rows[x].0, group)->0,
                counter_suffix_of(rows[y].0, group)->0,
            );
        }
    }
}

// --- what a window answers for ----------------------------------------------------

/// Buckets of one day stand in the order of their shards.
proof fn lemma_shards_in_order(group: Seq<u8>, day: u16, a: u16, b: u16)
    requires
        lex_lt(counter_key(group, day, a), counter_key(group, day, b)),
        a < 4,
        b < 4,
    ensures
        a < b,
{
    reveal_with_fuel(lex_lt, 3);
    let head = group + u16_bytes(day);
    let (x, y) = (u16_bytes(a), u16_bytes(b));
    lex_common_head(head, x, y);
    assert(x[0] == 0 && y[0] == 0);
    assert(x.drop_first()[0] == a && y.drop_first()[0] == b);
}

/// A bucket's place in its window's scan is bounded by its day and shard: with fewer
/// than four shards a day, a scan of four rows a day reaches the window's end.
proof fn lemma_place_of_a_bucket(group: Seq<u8>, list: Seq<Entry>, from: u16, y: int)
    requires
        ordered(list),
        0 <= y < list.len(),
        forall|i: int|
            0 <= i < list.len() ==> lex_lt(
                counters_from_day_key(group, from),
                #[trigger] list[i].0,
            ),
        forall|i: int|
            0 <= i < list.len() ==> (counter_suffix_of(#[trigger] list[i].0, group) matches Some(
                (_, shard),
            ) && shard < 4),
    ensures
        ({
            let (day, shard) = counter_suffix_of(list[y].0, group)->0;
            day >= from && y <= 4 * (day - from) + shard
        }),
    decreases y,
{
    let (day, shard) = counter_suffix_of(list[y].0, group)->0;
    lemma_suffix_is_key(list[y].0, group);
    counters_from_day_starts_the_window(group, from, day, shard);
    if y > 0 {
        lemma_place_of_a_bucket(group, list, from, y - 1);
        let (d, s) = counter_suffix_of(list[y - 1].0, group)->0;
        assert(counter_suffix_of(list[y - 1].0, group) is Some && s < 4);
        lemma_suffix_is_key(list[y - 1].0, group);
        assert(lex_lt(list[y - 1].0, list[y].0));
        lemma_days_in_order(group, (d, s), (day, shard));
        if d == day {
            lemma_shards_in_order(group, day, s, shard);
        }
    }
}

/// A day that a run holds one bucket of sums to that bucket.
proof fn lemma_one_shard(group: Seq<u8>, rows: Seq<Entry>, day: u16, y: int)
    requires
        0 <= y < rows.len(),
        counter_suffix_of(rows[y].0, group) matches Some((d, _)) && d == day,
        forall|i: int|
            0 <= i < rows.len() && i != y ==> !(counter_suffix_of(
                #[trigger] rows[i].0,
                group,
            ) matches Some((d, _)) && d == day),
    ensures
        day_sum(group, rows, day) == counters_wire(rows[y].1),
    decreases rows.len(),
{
    let head = rows.drop_last();
    if y < rows.len() - 1 {
        assert(head[y] == rows[y]);
        assert forall|i: int| 0 <= i < head.len() && i != y implies !(counter_suffix_of(
            #[trigger] head[i].0,
            group,
        ) matches Some((d, _)) && d == day) by {
            assert(rows[i] == head[i]);
        }
        lemma_one_shard(group, head, day, y);
        assert(!(counter_suffix_of(rows[rows.len() - 1].0, group) matches Some((d, _)) && d
            == day));
    } else {
        assert forall|i: int| 0 <= i < head.len() implies !(counter_suffix_of(
            #[trigger] head[i].0,
            group,
        ) matches Some((d, _)) && d == day) by {
            assert(rows[i] == head[i]);
        }
        lemma_no_shard(group, head, day);
    }
}

/// A day that a run holds no bucket of has no sum.
proof fn lemma_no_shard(group: Seq<u8>, rows: Seq<Entry>, day: u16)
    requires
        forall|i: int|
            0 <= i < rows.len() ==> !(counter_suffix_of(#[trigger] rows[i].0, group) matches Some(
                (d, _),
            ) && d == day),
    ensures
        day_sum(group, rows, day) is None,
    decreases rows.len(),
{
    if rows.len() > 0 {
        let head = rows.drop_last();
        assert forall|i: int| 0 <= i < head.len() implies !(counter_suffix_of(
            #[trigger] head[i].0,
            group,
        ) matches Some((d, _)) && d == day) by {
            assert(rows[i] == head[i]);
        }
        lemma_no_shard(group, head, day);
        assert(!(counter_suffix_of(rows[rows.len() - 1].0, group) matches Some((d, _)) && d
            == day));
    }
}

/// A window of so many days answers for each of them: wherever a bucket of a day from
/// the first on and before the first behind the window is stored, the answer holds
/// that day, and where it is the day's only one, the answer holds the very counts
/// that are stored. Fewer than four nodes may have written.
pub proof fn a_window_answers_for_each_of_its_days(
    es: Seq<Entry>,
    repo: Seq<char>,
    id: RepoId,
    subject: SubjectView,
    from: u16,
    days: u16,
    day: u16,
    shard: u16,
    stored: Seq<u8>,
)
    requires
        ordered(es),
        repo_lookup(es, repo) == Ok::<Option<RepoId>, Fault>(Some(id)),
        counts_answer(es, repo, subject, from, days) is Ok,
        forall|i: int|
            0 <= i < es.len() && has_prefix(#[trigger] es[i].0, subject_group(id, subject)) ==> exists|
                d: u16,
                s: u16,
            | es[i].0 == #[trigger] counter_key(subject_group(id, subject), d, s) && s < 4,
        from <= day < from + days,
        lookup(es, counter_key(subject_group(id, subject), day, shard)) == Some(stored),
    ensures
        ({
            let out = counts_answer(es, repo, subject, from, days)->Ok_0;
            &&& exists|i: int| 0 <= i < out.len() && (#[trigger] out[i]).0 == day
            &&& (forall|s: u16|
                s != shard ==> lookup(
                    es,
                    #[trigger] counter_key(subject_group(id, subject), day, s),
                ) is None) ==> counters_wire(stored) is Some && out.contains(
                (day, counters_wire(stored)->0),
            )
        }),
{
    let out = counts_answer(es, repo, subject, from, days)->Ok_0;
    let group = subject_group(id, subject);
    let cursor = counters_from_day_key(group, from);
    let list = listing(es, group, Some(cursor));
    let limit = (days * SHARD_SCAN_SLACK) as nat;
    let rows = shown(list, limit);
    let k = counter_key(group, day, shard);
    lemma_listing(es, group, Some(cursor));
    assert forall|i: int| 0 <= i < list.len() implies lex_lt(cursor, #[trigger] list[i].0) && (
    counter_suffix_of(list[i].0, group) matches Some((_, s)) && s < 4) && es.contains(list[i]) by {
        assert(in_range(list[i].0, group, Some(cursor)));
        assert(es.contains(list[i]));
        let x = choose|x: int| 0 <= x < es.len() && es[x] == list[i];
        assert(has_prefix(es[x].0, group));
        let (d, s) = choose|d: u16, s: u16|
            es[x].0 == #[trigger] counter_key(group, d, s) && s < 4;
        counter_suffix_reads_the_key(group, d, s);
    }
    lemma_table_key_is_entry(es, k);
    let x = choose|x: int| 0 <= x < es.len() && #[trigger] es[x] == (k, table(es)[k]);
    counters_from_day_starts_the_window(group, from, day, shard);
    counter_suffix_reads_the_key(group, day, shard);
    assert(k.subrange(0, group.len() as int) =~= group);
    lemma_listing_is_complete(es, group, Some(cursor), x);
    let y = choose|y: int| 0 <= y < list.len() && list[y] == es[x];
    lemma_place_of_a_bucket(group, list, from, y);
    assert(counter_suffix_of(list[y].0, group) == Some((day, shard)));
    assert(y < 4 * days);
    assert(rows[y] == list[y]);
    assert forall|i: int| 0 <= i < rows.len() implies lex_lt(cursor, #[trigger] rows[i].0) by {
        assert(rows[i] == list[i]);
    }
    assert forall|i: int, j: int| 0 <= i < j < rows.len() implies lex_lt(
        #[trigger] rows[i].0,
        #[trigger] rows[j].0,
    ) by {
        assert(lex_lt(list[i].0, list[j].0));
    }
    let last = last_day(from, days);
    assert(day <= last);
    lemma_window_sums(group, rows, from, last);
    lemma_day_is_summed(group, rows, from, last, y);
    let total = day_sum(group, rows, day)->0;
    assert(out.contains((day, total)));
    let i = choose|i: int| 0 <= i < out.len() && out[i] == (day, total);
    assert(out[i].0 == day);
    if forall|s: u16| s != shard ==> lookup(es, #[trigger] counter_key(group, day, s)) is None {
        assert forall|i: int| 0 <= i < rows.len() && i != y implies !(counter_suffix_of(
            #[trigger] rows[i].0,
            group,
        ) matches Some((d, _)) && d == day) by {
            assert(rows[i] == list[i]);
            if let Some((d, s)) = counter_suffix_of(rows[i].0, group) {
                if d == day {
                    lemma_suffix_is_key(rows[i].0, group);
                    let z = choose|z: int| 0 <= z < es.len() && es[z] == list[i];
                    lemma_lookup_at(es, z);
                    assert(lookup(es, counter_key(group, day, s)) is Some);
                    assert(s == shard);
                    lex_irreflexive(k);
                    if i < y {
                        assert(lex_lt(list[i].0, list[y].0));
                    } else {
                        assert(lex_lt(list[y].0, list[i].0));
                    }
                }
            }
        }
        lemma_one_shard(group, rows, day, y);
    }
}

/// A window shows nothing but what is stored in it: each of its days lies from the
/// first on and before the first behind the window, a bucket of it is stored, and
/// the days come oldest first, each once.
pub proof fn a_window_shows_only_what_is_stored_in_it(
    es: Seq<Entry>,
    repo: Seq<char>,
    id: RepoId,
    subject: SubjectView,
    from: u16,
    days: u16,
    i: int,
    j: int,
)
    requires
        ordered(es),
        repo_lookup(es, repo) == Ok::<Option<RepoId>, Fault>(Some(id)),
        counts_answer(es, repo, subject, from, days) is Ok,
        0 <= i < j < (counts_answer(es, repo, subject, from, days)->Ok_0).len() || 0 <= i == j < (
        counts_answer(es, repo, subject, from, days)->Ok_0).len(),
    ensures
        ({
            let out = counts_answer(es, repo, subject, from, days)->Ok_0;
            &&& from <= out[i].0 < from + days
            &&& i < j ==> out[i].0 < out[j].0
            &&& exists|shard: u16|
                lookup(
                    es,
                    #[trigger] counter_key(subject_group(id, subject), out[i].0, shard),
                ) is Some
        }),
{
    a_window_holds_its_days_in_order(es, repo, subject, from, days);
    let out = counts_answer(es, repo, subject, from, days)->Ok_0;
    let group = subject_group(id, subject);
    let cursor = counters_from_day_key(group, from);
    let list = listing(es, group, Some(cursor));
    let rows = shown(list, (days * SHARD_SCAN_SLACK) as nat);
    let last = last_day(from, days);
    lemma_listing(es, group, Some(cursor));
    assert forall|x: int| 0 <= x < rows.len() implies lex_lt(cursor, #[trigger] rows[x].0) by {
        assert(rows[x] == list[x]);
        assert(in_range(list[x].0, group, Some(cursor)));
    }
    assert forall|x: int, y: int| 0 <= x < y < rows.len() implies lex_lt(
        #[trigger] rows[x].0,
        #[trigger] rows[y].0,
    ) by {
        assert(lex_lt(list[x].0, list[y].0));
    }
    lemma_window_sums(group, rows, from, last);
    let day = out[i].0;
    assert(from <= out[i].0 <= last);
    assert(out.contains((day, out[i].1)));
    if forall|x: int|
        0 <= x < rows.len() ==> !(counter_suffix_of(#[trigger] rows[x].0, group) matches Some(
            (d, _),
        ) && d == day) {
        lemma_no_shard(group, rows, day);
    }
    let x = choose|x: int|
        0 <= x < rows.len() && (counter_suffix_of(#[trigger] rows[x].0, group) matches Some((d, _))
            && d == day);
    let shard = (counter_suffix_of(rows[x].0, group)->0).1;
    lemma_suffix_is_key(rows[x].0, group);
    assert(rows[x] == list[x]);
    assert(es.contains(list[x]));
    let z = choose|z: int| 0 <= z < es.len() && es[z] == list[x];
    lemma_lookup_at(es, z);
    assert(lookup(es, counter_key(group, day, shard)) is Some);
}

/// What is counted is read back: after a flush, a window that holds the day of one of
/// its deltas shows that day, with each hour grown by what the bucket's deltas count
/// in it.
pub proof fn what_is_counted_is_read_back(
    es: Seq<Entry>,
    ds: Seq<DeltaView>,
    later: Seq<Entry>,
    id: RepoId,
    x: int,
    from: u16,
    days: u16,
    hour: int,
)
    requires
        flush_plan(es, ds) is Ok,
        table(later) == applied(table(es), flush_plan(es, ds)->Ok_0),
        all_read_back(es, ds, touched(ds)),
        one_name_each(es),
        0 <= x < ds.len(),
        repo_lookup(es, ds[x].0.0) == Ok::<Option<RepoId>, Fault>(Some(id)),
        bucket_at(es, bucket_key(id, ds[x].0)) matches Ok(b) && is_day(b),
        no_less(ds),
        0 <= hour < 24,
        ordered(later),
        counts_answer(later, ds[x].0.0, ds[x].0.1, from, days) is Ok,
        forall|i: int|
            0 <= i < later.len() && has_prefix(
                #[trigger] later[i].0,
                subject_group(id, ds[x].0.1),
            ) ==> exists|d: u16, s: u16|
                later[i].0 == #[trigger] counter_key(subject_group(id, ds[x].0.1), d, s) && s < 1,
        from <= ds[x].0.2 < from + days,
    ensures
        ({
            let out = counts_answer(later, ds[x].0.0, ds[x].0.1, from, days)->Ok_0;
            let before = bucket_at(es, bucket_key(id, ds[x].0))->Ok_0;
            let more = counted(deltas_of(ds, ds[x].0), hour);
            exists|i: int|
                0 <= i < out.len() && (#[trigger] out[i]).0 == ds[x].0.2 && out[i].1.0[hour]
                    == capped(before.0[hour] + more.0, u32::MAX as int) && out[i].1.1[hour]
                    == capped(before.1[hour] + more.1, u32::MAX as int) && out[i].1.2[hour]
                    == capped(before.2[hour] + more.2, u64::MAX as int)
        }),
{
    let name = ds[x].0;
    let group = subject_group(id, name.1);
    let k = bucket_key(id, name);
    let out = counts_answer(later, name.0, name.1, from, days)->Ok_0;
    lemma_touched(ds);
    assert(touched(ds).contains(ds[x].0));
    a_flush_makes_no_repository(es, ds, later, name.0);
    a_flush_counts_each_hour(es, ds, later, id, name, hour);
    lemma_flushed_value(es, ds, id, name);
    applied_by_last_word(table(es), flush_plan(es, ds)->Ok_0, k);
    let stored = lookup(later, k)->0;
    assert forall|s: u16| s != 0 implies lookup(later, #[trigger] counter_key(group, name.2, s))
        is None by {
        let key = counter_key(group, name.2, s);
        if lookup(later, key) is Some {
            lemma_table_key_is_entry(later, key);
            let j = choose|j: int|
                0 <= j < later.len() && #[trigger] later[j] == (key, table(later)[key]);
            assert(key.subrange(0, group.len() as int) =~= group);
            assert(has_prefix(later[j].0, group));
            let (d, t) = choose|d: u16, t: u16|
                later[j].0 == #[trigger] counter_key(group, d, t) && t < 1;
            counter_suffix_reads_the_key(group, name.2, s);
            counter_suffix_reads_the_key(group, d, t);
        }
    }
    assert forall|i: int|
        0 <= i < later.len() && has_prefix(#[trigger] later[i].0, group) implies exists|
        d: u16,
        s: u16,
    | later[i].0 == #[trigger] counter_key(group, d, s) && s < 4 by {
        let (d, t) = choose|d: u16, t: u16|
            later[i].0 == #[trigger] counter_key(group, d, t) && t < 1;
        assert(later[i].0 == counter_key(group, d, t));
    }
    a_window_answers_for_each_of_its_days(
        later,
        name.0,
        id,
        name.1,
        from,
        days,
        name.2,
        0,
        stored,
    );
    let b = counters_wire(stored)->0;
    let i = choose|i: int| 0 <= i < out.len() && out[i] == (name.2, b);
    assert(out[i].0 == name.2);
}

} // verus!
