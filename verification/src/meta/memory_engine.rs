//! A metadata engine over sorted memory.
//!
//! Holds its rows in key order and answers exactly, without ever failing: the
//! store for tests and for a registry that keeps nothing.
use vstd::prelude::*;

use crate::bytes::{
    bytes_eq, bytes_lt, has_prefix, lex_asymmetric, lex_irreflexive, lex_le, lex_lt, lex_total,
    lex_transitive, starts_with,
};
use crate::error::Result;
use crate::meta::engine::{
    applied, is_page, lemma_listing_is_empty_iff_no_key, lemma_lookup_at, lemma_table_key_is_entry,
    lookup, op_applied, ordered, page_entries, slice_view, table, Entry, MetaEngine, MetaOp, Page,
    WriteBatch,
};
use crate::meta::range::{
    leading, lemma_filter_keeps_order, lower_bound, walking_from_the_bound_lists, LowerBound,
    PageBuilder,
};

verus! {

/// Rows in memory, in key order.
#[derive(Debug)]
pub struct MemoryEngine {
    rows: Vec<(Vec<u8>, Vec<u8>)>,
}

/// Ordered entries are the table that holds each of them and nothing else.
proof fn lemma_table_is(es: Seq<Entry>, m: Map<Seq<u8>, Seq<u8>>)
    requires
        ordered(es),
        forall|i: int|
            0 <= i < es.len() ==> m.contains_key(#[trigger] es[i].0) && m[es[i].0] == es[i].1,
        forall|k: Seq<u8>| #[trigger]
            m.contains_key(k) ==> exists|i: int| 0 <= i < es.len() && #[trigger] es[i].0 == k,
    ensures
        table(es) == m,
{
    assert forall|k: Seq<u8>| #[trigger] table(es).contains_key(k) implies m.contains_key(k)
        && m[k] == table(es)[k] by {
        lemma_table_key_is_entry(es, k);
        let i = choose|i: int| 0 <= i < es.len() && #[trigger] es[i] == (k, table(es)[k]);
        assert(m.contains_key(es[i].0));
    }
    assert forall|k: Seq<u8>| #[trigger] m.contains_key(k) implies table(es).contains_key(k) by {
        let i = choose|i: int| 0 <= i < es.len() && #[trigger] es[i].0 == k;
        lemma_lookup_at(es, i);
    }
    assert(table(es) =~= m);
}

/// Ordered entries hold a key exactly where one of them has it.
proof fn lemma_no_key(es: Seq<Entry>, k: Seq<u8>)
    requires
        forall|i: int| 0 <= i < es.len() ==> #[trigger] es[i].0 != k,
    ensures
        lookup(es, k) is None,
{
    if table(es).contains_key(k) {
        lemma_table_key_is_entry(es, k);
        let i = choose|i: int| 0 <= i < es.len() && #[trigger] es[i] == (k, table(es)[k]);
        assert(es[i].0 != k);
    }
}

impl MemoryEngine {
    /// The rows as the model has them.
    pub closed spec fn model(&self) -> Seq<Entry> {
        page_entries(self.rows@)
    }

    pub fn new() -> (r: Self)
        ensures
            r.valid(),
            r.entries() == Seq::<Entry>::empty(),
    {
        let r = MemoryEngine { rows: Vec::new() };
        assert(r.model() =~= Seq::<Entry>::empty());
        r
    }

    /// The first row whose key is not before `key`.
    fn position(&self, key: &[u8]) -> (r: usize)
        requires
            self.valid(),
        ensures
            r <= self.rows@.len(),
            forall|i: int| 0 <= i < r ==> lex_lt(#[trigger] self.model()[i].0, key@),
            forall|i: int| r <= i < self.rows@.len() ==> lex_le(key@, #[trigger] self.model()[i].0),
    {
        let mut low: usize = 0;
        let mut high: usize = self.rows.len();
        while low < high
            invariant
                self.valid(),
                low <= high <= self.rows@.len(),
                forall|i: int| 0 <= i < low ==> lex_lt(#[trigger] self.model()[i].0, key@),
                forall|i: int|
                    high <= i < self.rows@.len() ==> lex_le(key@, #[trigger] self.model()[i].0),
            decreases high - low,
        {
            let mid: usize = low + (high - low) / 2;
            if bytes_lt(self.rows[mid].0.as_slice(), key) {
                proof {
                    let es = self.model();
                    assert forall|i: int| 0 <= i < mid + 1 implies lex_lt(#[trigger] es[i].0, key@) by {
                        if i < mid {
                            lex_transitive(es[i].0, es[mid as int].0, key@);
                        }
                    }
                }
                low = mid + 1;
            } else {
                proof {
                    let es = self.model();
                    lex_total(es[mid as int].0, key@);
                    assert forall|i: int| mid <= i < es.len() implies lex_le(
                        key@,
                        #[trigger] es[i].0,
                    ) by {
                        if mid < i {
                            assert(lex_lt(es[mid as int].0, es[i].0));
                            if key@ != es[mid as int].0 {
                                lex_transitive(key@, es[mid as int].0, es[i].0);
                            }
                        }
                    }
                }
                high = mid;
            }
        }
        low
    }

    /// Store `value` against `key`.
    fn put(&mut self, key: &[u8], value: &[u8])
        requires
            old(self).valid(),
        ensures
            final(self).valid(),
            table(final(self).entries()) == table(old(self).entries()).insert(key@, value@),
    {
        let at: usize = self.position(key);
        let ghost before = self.model();
        let row = (vstd::slice::slice_to_vec(key), vstd::slice::slice_to_vec(value));
        let ghost fresh: Entry = (key@, value@);
        if at < self.rows.len() && bytes_eq(self.rows[at].0.as_slice(), key) {
            let _ = self.rows.remove(at);
            proof {
                assert(self.model() =~= before.remove(at as int));
            }
            self.rows.insert(at, row);
            assert(self.model() =~= before.update(at as int, fresh));
        } else {
            self.rows.insert(at, row);
            assert(self.model() =~= before.insert(at as int, fresh));
            proof {
                if at < before.len() {
                    assert(lex_le(key@, before[at as int].0));
                }
            }
        }
        proof {
            let es = self.model();
            let replaced = es.len() == before.len();
            assert forall|i: int| at < i < es.len() implies lex_lt(key@, #[trigger] es[i].0) by {
                if replaced {
                    assert(lex_lt(before[at as int].0, before[i].0));
                } else {
                    assert(es[i] == before[i - 1]);
                    assert(lex_le(key@, before[i - 1].0));
                    if at < i - 1 {
                        assert(lex_lt(before[at as int].0, before[i - 1].0));
                        assert(lex_le(key@, before[at as int].0));
                        if key@ != before[at as int].0 {
                            lex_transitive(key@, before[at as int].0, before[i - 1].0);
                        }
                    }
                }
            }
            assert forall|i: int| 0 <= i < at implies #[trigger] es[i] == before[i] && lex_lt(
                es[i].0,
                key@,
            ) by {
                assert(lex_lt(before[i].0, key@));
            }
            assert forall|i: int, j: int| 0 <= i < j < es.len() implies lex_lt(
                #[trigger] es[i].0,
                #[trigger] es[j].0,
            ) by {
                if replaced {
                    if i != at && j != at {
                        assert(lex_lt(before[i].0, before[j].0));
                    }
                } else if j < at {
                    assert(lex_lt(before[i].0, before[j].0));
                } else if i > at {
                    assert(lex_lt(before[i - 1].0, before[j - 1].0));
                } else if i < at && j > at {
                    assert(lex_lt(before[i].0, before[j - 1].0));
                }
            }
            let m = table(before).insert(key@, value@);
            assert forall|i: int| 0 <= i < es.len() implies m.contains_key(#[trigger] es[i].0)
                && m[es[i].0] == es[i].1 by {
                if i < at {
                    lemma_lookup_at(before, i);
                    lex_irreflexive(key@);
                } else if i > at {
                    let k = if replaced {
                        i
                    } else {
                        i - 1
                    };
                    assert(es[i] == before[k]);
                    lemma_lookup_at(before, k);
                    assert(lex_lt(key@, es[i].0));
                    lex_irreflexive(key@);
                }
            }
            assert forall|k: Seq<u8>| #[trigger] m.contains_key(k) implies exists|i: int|
                0 <= i < es.len() && #[trigger] es[i].0 == k by {
                if k == key@ {
                    assert(es[at as int].0 == k);
                } else {
                    lemma_table_key_is_entry(before, k);
                    let i = choose|i: int|
                        0 <= i < before.len() && #[trigger] before[i] == (k, table(before)[k]);
                    let j = if replaced || i < at {
                        i
                    } else {
                        i + 1
                    };
                    assert(es[j].0 == k);
                }
            }
            lemma_table_is(es, m);
        }
    }

    /// Remove `key`.
    fn remove(&mut self, key: &[u8])
        requires
            old(self).valid(),
        ensures
            final(self).valid(),
            table(final(self).entries()) == table(old(self).entries()).remove(key@),
    {
        let at: usize = self.position(key);
        let ghost before = self.model();
        if at < self.rows.len() && bytes_eq(self.rows[at].0.as_slice(), key) {
            let _ = self.rows.remove(at);
            proof {
                let es = self.model();
                assert(es =~= before.remove(at as int));
                assert forall|i: int, j: int| 0 <= i < j < es.len() implies lex_lt(
                    #[trigger] es[i].0,
                    #[trigger] es[j].0,
                ) by {
                    let x = if i < at {
                        i
                    } else {
                        i + 1
                    };
                    let y = if j < at {
                        j
                    } else {
                        j + 1
                    };
                    assert(lex_lt(before[x].0, before[y].0));
                }
                let m = table(before).remove(key@);
                assert forall|i: int| 0 <= i < es.len() implies m.contains_key(#[trigger] es[i].0)
                    && m[es[i].0] == es[i].1 by {
                    let x = if i < at {
                        i
                    } else {
                        i + 1
                    };
                    lemma_lookup_at(before, x);
                    if x < at {
                        assert(lex_lt(before[x].0, before[at as int].0));
                    } else {
                        assert(lex_lt(before[at as int].0, before[x].0));
                    }
                    lex_irreflexive(key@);
                }
                assert forall|k: Seq<u8>| #[trigger] m.contains_key(k) implies exists|i: int|
                    0 <= i < es.len() && #[trigger] es[i].0 == k by {
                    lemma_table_key_is_entry(before, k);
                    let i = choose|i: int|
                        0 <= i < before.len() && #[trigger] before[i] == (k, table(before)[k]);
                    let j = if i < at {
                        i
                    } else {
                        i - 1
                    };
                    assert(es[j].0 == k);
                }
                lemma_table_is(es, m);
            }
        } else {
            proof {
                lemma_absent(before, key@, at as int);
                assert(table(before).remove(key@) =~= table(before));
            }
        }
    }

    /// Remove every key under `prefix`.
    fn remove_prefix(&mut self, prefix: &[u8])
        requires
            old(self).valid(),
        ensures
            final(self).valid(),
            table(final(self).entries()) == table(old(self).entries()).restrict(
                Set::new(
                    |k: Seq<u8>|
                        table(old(self).entries()).contains_key(k) && !has_prefix(k, prefix@),
                ),
            ),
    {
        let ghost before = self.model();
        let ghost keep = |e: Entry| !has_prefix(e.0, prefix@);
        let mut rows: Vec<(Vec<u8>, Vec<u8>)> = Vec::new();
        let mut i: usize = 0;
        while i < self.rows.len()
            invariant
                i <= self.rows@.len(),
                self.model() == before,
                keep == (|e: Entry| !has_prefix(e.0, prefix@)),
                page_entries(rows@) == before.subrange(0, i as int).filter(keep),
            decreases self.rows@.len() - i,
        {
            let ghost seen = before.subrange(0, i as int);
            let ghost e = before[i as int];
            proof {
                assert(before.subrange(0, i + 1) =~= seen.push(e));
                assert(seen.push(e).drop_last() =~= seen);
                reveal(Seq::filter);
            }
            if !starts_with(self.rows[i].0.as_slice(), prefix) {
                let ghost kept = page_entries(rows@);
                let row = (
                    vstd::slice::slice_to_vec(self.rows[i].0.as_slice()),
                    vstd::slice::slice_to_vec(self.rows[i].1.as_slice()),
                );
                rows.push(row);
                assert(page_entries(rows@) =~= kept.push(e));
            }
            i += 1;
        }
        assert(before.subrange(0, i as int) =~= before);
        self.rows = rows;
        proof {
            let es = self.model();
            lemma_filter_keeps_order(before, keep);
            let m = table(before).restrict(
                Set::new(|k: Seq<u8>| table(before).contains_key(k) && !has_prefix(k, prefix@)),
            );
            assert forall|i: int| 0 <= i < es.len() implies m.contains_key(#[trigger] es[i].0)
                && m[es[i].0] == es[i].1 by {
                assert(keep(es[i]));
                assert(before.contains(es[i]));
                let j = choose|j: int| 0 <= j < before.len() && before[j] == es[i];
                lemma_lookup_at(before, j);
            }
            assert forall|k: Seq<u8>| #[trigger] m.contains_key(k) implies exists|i: int|
                0 <= i < es.len() && #[trigger] es[i].0 == k by {
                lemma_table_key_is_entry(before, k);
                let j = choose|j: int|
                    0 <= j < before.len() && #[trigger] before[j] == (k, table(before)[k]);
                before.lemma_filter_contains_rev(keep, before[j]);
                let i = choose|i: int| 0 <= i < es.len() && es[i] == before[j];
                assert(es[i].0 == k);
            }
            lemma_table_is(es, m);
        }
    }

    /// One mutation.
    fn apply_op(&mut self, op: &MetaOp)
        requires
            old(self).valid(),
        ensures
            final(self).valid(),
            table(final(self).entries()) == op_applied(table(old(self).entries()), op@),
    {
        match op {
            MetaOp::Put { key, value } => self.put(key.as_slice(), value.as_slice()),
            MetaOp::Delete { key } => self.remove(key.as_slice()),
            MetaOp::DeletePrefix { prefix } => self.remove_prefix(prefix.as_slice()),
        }
    }
}

/// A key that falls between two rows is not in the table.
proof fn lemma_absent(es: Seq<Entry>, key: Seq<u8>, at: int)
    requires
        ordered(es),
        0 <= at <= es.len(),
        forall|i: int| 0 <= i < at ==> lex_lt(#[trigger] es[i].0, key),
        forall|i: int| at <= i < es.len() ==> lex_le(key, #[trigger] es[i].0),
        at < es.len() ==> es[at].0 != key,
    ensures
        !table(es).contains_key(key),
{
    assert forall|i: int| 0 <= i < es.len() implies #[trigger] es[i].0 != key by {
        lex_irreflexive(key);
        if i > at {
            assert(lex_lt(es[at].0, es[i].0));
            assert(lex_le(key, es[at].0));
            lex_transitive(key, es[at].0, es[i].0);
        }
    }
    lemma_no_key(es, key);
}

impl MetaEngine for MemoryEngine {
    closed spec fn entries(&self) -> Seq<Entry> {
        self.model()
    }

    closed spec fn valid(&self) -> bool {
        ordered(self.model())
    }

    open spec fn reliable(&self) -> bool {
        true
    }

    fn get(&self, key: &[u8]) -> (r: Result<Option<Vec<u8>>>) {
        let at: usize = self.position(key);
        if at < self.rows.len() && bytes_eq(self.rows[at].0.as_slice(), key) {
            proof {
                lemma_lookup_at(self.model(), at as int);
            }
            Ok(Some(vstd::slice::slice_to_vec(self.rows[at].1.as_slice())))
        } else {
            proof {
                lemma_absent(self.model(), key@, at as int);
            }
            Ok(None)
        }
    }

    fn scan(&self, prefix: &[u8], start_after: Option<&[u8]>, limit: usize) -> (r: Result<Page>) {
        let bound = lower_bound(prefix, start_after);
        let ghost es = self.model();
        let ghost admitted = |e: Entry| bound.admits(e.0);
        let mut builder = PageBuilder::new(prefix, limit);
        let mut i: usize = match &bound {
            LowerBound::From(k) => self.position(k.as_slice()),
            LowerBound::After(k) => {
                let at: usize = self.position(k.as_slice());
                if at < self.rows.len() && bytes_eq(self.rows[at].0.as_slice(), k.as_slice()) {
                    at + 1
                } else {
                    at
                }
            },
        };
        let ghost start = i as int;
        let ghost read = es.subrange(start, es.len() as int);
        proof {
            assert forall|x: int| start <= x < es.len() implies admitted(#[trigger] es[x]) by {
                match bound {
                    LowerBound::From(k) => {},
                    LowerBound::After(k) => {
                        assert(lex_le(k@, es[x].0));
                        if es[x].0 == k@ {
                            if x > 0 && start <= x - 1 {
                                assert(lex_lt(es[x - 1].0, es[x].0));
                                assert(lex_le(k@, es[x - 1].0));
                                lex_irreflexive(k@);
                                lex_asymmetric(es[x - 1].0, es[x].0);
                            }
                            if start > 0 && start == x {
                                assert(es[x - 1].0 == k@ || lex_lt(es[x - 1].0, k@));
                                assert(lex_lt(es[x - 1].0, es[x].0));
                                lex_irreflexive(k@);
                            }
                        }
                    },
                }
            }
            assert forall|x: int| 0 <= x < start implies !admitted(#[trigger] es[x]) by {
                match bound {
                    LowerBound::From(k) => {
                        lex_asymmetric(es[x].0, k@);
                    },
                    LowerBound::After(k) => {
                        lex_irreflexive(k@);
                        if es[x].0 != k@ {
                            lex_asymmetric(es[x].0, k@);
                        }
                    },
                }
            }
            lemma_filter_split(es, admitted, start);
            assert(es.filter(admitted) == read);
            assert(read.subrange(0, 0) =~= Seq::<Entry>::empty());
        }
        let mut wanted: bool = true;
        while i < self.rows.len() && wanted
            invariant
                start <= i <= self.rows@.len(),
                0 <= start,
                es == self.model(),
                read == es.subrange(start, es.len() as int),
                builder.scope() == prefix@,
                builder.bound() == limit,
                builder.has_seen(read.subrange(0, i - start)),
                !wanted ==> !(leading(read.subrange(0, i - start), prefix@) == read.subrange(
                    0,
                    i - start,
                ) && i - start <= limit),
            decreases self.rows@.len() - i,
        {
            let ghost seen = read.subrange(0, i - start);
            wanted = builder.offer(self.rows[i].0.as_slice(), self.rows[i].1.as_slice());
            assert(read.subrange(0, i + 1 - start) =~= seen.push(es[i as int]));
            i += 1;
        }
        let page = builder.finish();
        proof {
            let seen = read.subrange(0, i - start);
            lemma_leading_settled(read, prefix@, i - start, limit as int);
            walking_from_the_bound_lists(es, prefix@, slice_view(start_after), bound);
            let run = leading(seen, prefix@);
            let list = leading(read, prefix@);
            assert(is_page(page, run, limit as nat));
            if i == self.rows@.len() {
                assert(seen =~= read);
            } else {
                let n = if list.len() <= limit {
                    list.len() as int
                } else {
                    limit as int
                };
                assert(run.subrange(0, n) =~= list.subrange(0, n));
            }
        }
        Ok(page)
    }

    fn exists_prefix(&self, prefix: &[u8]) -> (r: Result<bool>) {
        proof {
            lemma_listing_is_empty_iff_no_key(self.model(), prefix@);
        }
        match self.scan(prefix, None, 1) {
            Ok(page) => {
                assert(page_entries(page.entries@).len() == page.entries@.len());
                Ok(page.entries.len() > 0)
            },
            Err(e) => Err(e),
        }
    }

    fn apply(&mut self, batch: &WriteBatch) -> (r: Result<()>) {
        let mut i: usize = 0;
        while i < batch.ops.len()
            invariant
                i <= batch.ops@.len(),
                self.valid(),
                table(self.entries()) == applied(
                    table(old(self).entries()),
                    batch@.subrange(0, i as int),
                ),
            decreases batch.ops@.len() - i,
        {
            self.apply_op(&batch.ops[i]);
            assert(batch@.subrange(0, i + 1).drop_last() =~= batch@.subrange(0, i as int));
            i += 1;
        }
        assert(batch@.subrange(0, i as int) =~= batch@);
        Ok(())
    }
}

/// A filter that refuses a head and admits the rest leaves the rest.
proof fn lemma_filter_split(es: Seq<Entry>, keep: spec_fn(Entry) -> bool, start: int)
    requires
        0 <= start <= es.len(),
        forall|i: int| 0 <= i < start ==> !keep(#[trigger] es[i]),
        forall|i: int| start <= i < es.len() ==> keep(#[trigger] es[i]),
    ensures
        es.filter(keep) == es.subrange(start, es.len() as int),
    decreases es.len(),
{
    reveal(Seq::filter);
    if es.len() > 0 {
        let head = es.drop_last();
        if start == es.len() {
            lemma_filter_split(head, keep, start - 1);
            assert(!keep(es[es.len() - 1]));
            assert(head.subrange(start - 1, head.len() as int) =~= es.subrange(
                start,
                es.len() as int,
            ));
        } else {
            lemma_filter_split(head, keep, start);
            assert(keep(es[es.len() - 1]));
            assert(head.subrange(start, head.len() as int).push(es.last()) =~= es.subrange(
                start,
                es.len() as int,
            ));
        }
    } else {
        assert(es.filter(keep) =~= es.subrange(start, es.len() as int));
    }
}

/// Once a head of the entries read is not all under the prefix, or is longer
/// than the limit, reading on does not change the page.
proof fn lemma_leading_settled(read: Seq<Entry>, prefix: Seq<u8>, n: int, limit: int)
    requires
        0 <= n <= read.len(),
        limit >= 0,
        n < read.len() ==> !(leading(read.subrange(0, n), prefix) == read.subrange(0, n) && n
            <= limit),
    ensures
        n < read.len() ==> {
            let run = leading(read.subrange(0, n), prefix);
            let list = leading(read, prefix);
            &&& run.len() <= list.len()
            &&& run == list.subrange(0, run.len() as int)
            &&& run.len() == list.len() || run.len() > limit
        },
    decreases read.len(),
{
    if n < read.len() {
        let seen = read.subrange(0, n);
        lemma_leading_head(read, prefix, n);
    }
}

/// The leading run of a head is a head of the leading run, and all of it unless
/// the whole head leads.
proof fn lemma_leading_head(read: Seq<Entry>, prefix: Seq<u8>, n: int)
    requires
        0 <= n <= read.len(),
    ensures
        ({
            let run = leading(read.subrange(0, n), prefix);
            let list = leading(read, prefix);
            &&& run.len() <= list.len()
            &&& run.len() <= n
            &&& run == list.subrange(0, run.len() as int)
            &&& run.len() == list.len() || run == read.subrange(0, n)
        }),
    decreases read.len(),
{
    let head = read.subrange(0, n);
    if n == 0 {
        assert(leading(head, prefix) =~= Seq::<Entry>::empty());
        assert(leading(head, prefix) =~= leading(read, prefix).subrange(0, 0));
        assert(leading(head, prefix) =~= head);
    } else if has_prefix(read[0].0, prefix) {
        let rest = read.drop_first();
        lemma_leading_head(rest, prefix, n - 1);
        assert(head.drop_first() =~= rest.subrange(0, n - 1));
        let run = leading(head, prefix);
        let list = leading(read, prefix);
        let inner = leading(rest.subrange(0, n - 1), prefix);
        assert(run =~= list.subrange(0, run.len() as int)) by {
            assert(run == seq![read[0]] + inner);
            assert(list == seq![read[0]] + leading(rest, prefix));
        }
        if inner == rest.subrange(0, n - 1) {
            assert(run =~= head);
        }
    } else {
        assert(leading(head, prefix) =~= leading(read, prefix).subrange(0, 0));
    }
}

} // verus!
