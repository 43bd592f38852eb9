//! Key ranges: the bounds of a prefix, and a page cut from what a store reads.
use vstd::prelude::*;

use crate::bytes::{
    bytes_lt, has_prefix, lex_asymmetric, lex_from_difference, lex_irreflexive, lex_le, lex_lt,
    lex_total, lex_transitive, prefix_sorts_first, starts_with,
};
use crate::meta::engine::{
    bytes_view, in_range, is_page, listing, ordered, page_entries, slice_view, Entry, Page,
};

verus! {

/// How much of `p` is left when the `0xff` bytes at its end are dropped.
pub open spec fn without_trailing_ff(p: Seq<u8>) -> Seq<u8>
    decreases p.len(),
{
    if p.len() > 0 && p.last() == 0xff {
        without_trailing_ff(p.drop_last())
    } else {
        p
    }
}

/// `p` with its last byte raised by one, after trailing `0xff` bytes carried.
pub open spec fn successor(p: Seq<u8>) -> Option<Seq<u8>> {
    let q = without_trailing_ff(p);
    if q.len() == 0 {
        None
    } else {
        Some(q.drop_last().push((q.last() + 1) as u8))
    }
}

/// Dropping trailing `0xff` bytes leaves a head of `p`, followed by nothing else.
proof fn lemma_without_trailing_ff(p: Seq<u8>)
    ensures
        without_trailing_ff(p).len() <= p.len(),
        without_trailing_ff(p) == p.subrange(0, without_trailing_ff(p).len() as int),
        forall|i: int| without_trailing_ff(p).len() <= i < p.len() ==> p[i] == 0xff,
        without_trailing_ff(p).len() > 0 ==> without_trailing_ff(p).last() != 0xff,
    decreases p.len(),
{
    if p.len() > 0 && p.last() == 0xff {
        lemma_without_trailing_ff(p.drop_last());
        let n = without_trailing_ff(p).len() as int;
        assert(p.drop_last().subrange(0, n) =~= p.subrange(0, n));
        assert forall|i: int| n <= i < p.len() implies p[i] == 0xff by {
            if i < p.len() - 1 {
                assert(p.drop_last()[i] == 0xff);
            }
        }
    } else {
        assert(p =~= p.subrange(0, p.len() as int));
    }
}

/// A prefix and its successor bound its keys: the keys not before the prefix and
/// before the successor are those under it.
pub proof fn successor_bounds_the_prefix(p: Seq<u8>, key: Seq<u8>)
    ensures
        match successor(p) {
            Some(end) => has_prefix(key, p) <==> lex_le(p, key) && lex_lt(key, end),
            None => has_prefix(key, p) <==> lex_le(p, key),
        },
{
    let q = without_trailing_ff(p);
    let n = q.len() as int;
    lemma_without_trailing_ff(p);
    if has_prefix(key, p) {
        prefix_sorts_first(key, p);
        if n > 0 {
            let end = successor(p)->0;
            assert(key.subrange(0, p.len() as int)[n - 1] == p[n - 1]);
            assert(q[n - 1] == p[n - 1]);
            assert forall|i: int| 0 <= i < n - 1 implies key[i] == end[i] by {
                assert(key.subrange(0, p.len() as int)[i] == p[i]);
                assert(p.subrange(0, n)[i] == p[i]);
            }
            assert(key.subrange(0, n - 1) =~= end.subrange(0, n - 1));
            lex_from_difference(key, end, n - 1);
        }
    } else if lex_le(p, key) && (n > 0 ==> lex_lt(key, successor(p)->0)) {
        assert(p.subrange(0, 0) =~= key.subrange(0, 0));
        lemma_between(p, key, 0);
    }
}

/// A key that is not before `p`, not under it, and agrees with it up to `i`, is
/// past everything under `p`.
proof fn lemma_between(p: Seq<u8>, key: Seq<u8>, i: int)
    requires
        lex_le(p, key),
        !has_prefix(key, p),
        0 <= i <= p.len(),
        i <= key.len(),
        p.subrange(0, i) == key.subrange(0, i),
    ensures
        match successor(p) {
            Some(end) => !lex_lt(key, end),
            None => false,
        },
    decreases p.len() - i,
{
    if i == p.len() {
        assert(p.subrange(0, i) =~= p);
        assert(false);
    } else if i == key.len() {
        assert(key.subrange(0, i) =~= key);
        lex_from_difference(key, p, i);
        lex_irreflexive(p);
        lex_asymmetric(key, p);
        assert(false);
    } else if key[i] < p[i] {
        lex_from_difference(key, p, i);
        lex_asymmetric(key, p);
        assert(false);
    } else if key[i] == p[i] {
        assert(p.subrange(0, i + 1) =~= p.subrange(0, i).push(p[i]));
        assert(key.subrange(0, i + 1) =~= key.subrange(0, i).push(key[i]));
        lemma_between(p, key, i + 1);
    } else {
        lemma_without_trailing_ff(p);
        let q = without_trailing_ff(p);
        let n = q.len() as int;
        assert(i < n);
        let end = successor(p)->0;
        assert forall|j: int| 0 <= j < i implies end[j] == key[j] by {
            assert(p.subrange(0, i)[j] == p[j]);
            assert(key.subrange(0, i)[j] == key[j]);
            assert(p.subrange(0, n)[j] == p[j]);
        }
        assert(p.subrange(0, n)[i] == p[i]);
        assert(q[i] == p[i]);
        assert(end.subrange(0, i) =~= key.subrange(0, i));
        if i < n - 1 {
            assert(end[i] == p[i]);
            lex_from_difference(end, key, i);
            lex_asymmetric(end, key);
        } else if key[i] > end[i] {
            lex_from_difference(end, key, i);
            lex_asymmetric(end, key);
        } else {
            assert(end =~= key.subrange(0, i + 1));
            prefix_sorts_first(key, end);
            if lex_lt(end, key) {
                lex_asymmetric(end, key);
            } else {
                lex_irreflexive(key);
            }
        }
    }
}

/// Keys under a prefix stand together: past a later key that is not under it,
/// there are none.
pub proof fn prefix_keys_are_contiguous(p: Seq<u8>, a: Seq<u8>, b: Seq<u8>)
    requires
        lex_le(p, a),
        !has_prefix(a, p),
        lex_lt(a, b),
    ensures
        !has_prefix(b, p),
{
    successor_bounds_the_prefix(p, a);
    successor_bounds_the_prefix(p, b);
    if successor(p) is Some {
        let end = successor(p)->0;
        lex_total(a, end);
        if lex_lt(b, end) {
            lex_transitive(a, b, end);
        }
    }
}

/// Smallest key strictly greater than every key beginning with `prefix`.
///
/// A range delete takes a half-open `[start, end)`, so a prefix delete needs the
/// prefix's successor as the exclusive end. Trailing `0xff` bytes carry, and a
/// prefix of all `0xff` has no successor - it runs to the end of the keyspace,
/// reported here as `None`.
pub fn prefix_successor(prefix: &[u8]) -> (r: Option<Vec<u8>>)
    ensures
        bytes_view(r) == successor(prefix@),
{
    let mut end: Vec<u8> = vstd::slice::slice_to_vec(prefix);
    while end.len() > 0
        invariant
            without_trailing_ff(end@) == without_trailing_ff(prefix@),
        decreases end.len(),
    {
        let n: usize = end.len();
        let last: u8 = end[n - 1];
        let _ = end.pop();
        if last < 255 {
            end.push(last + 1);
            return Some(end);
        }
    }
    None
}

/// Where a scan starts reading.
#[derive(Debug, Clone, PartialEq, Eq)]
pub enum LowerBound {
    /// At this key, or the first one behind it.
    From(Vec<u8>),
    /// At the first key behind this one.
    After(Vec<u8>),
}

impl LowerBound {
    /// `key` is not before the bound.
    pub open spec fn admits(self, key: Seq<u8>) -> bool {
        match self {
            LowerBound::From(k) => lex_le(k@, key),
            LowerBound::After(k) => lex_lt(k@, key),
        }
    }
}

/// Where a scan under `prefix` resumes: behind the cursor, or at the prefix
/// itself where there is no cursor or it lies before the prefix.
pub fn lower_bound(prefix: &[u8], start_after: Option<&[u8]>) -> (r: LowerBound)
    ensures
        forall|key: Seq<u8>|
            has_prefix(key, prefix@) ==> #[trigger] r.admits(key) == in_range(
                key,
                prefix@,
                slice_view(start_after),
            ),
        forall|key: Seq<u8>| #[trigger] r.admits(key) ==> lex_le(prefix@, key),
{
    match start_after {
        Some(k) => {
            if bytes_lt(k, prefix) {
                let r = LowerBound::From(vstd::slice::slice_to_vec(prefix));
                proof {
                    assert forall|key: Seq<u8>| has_prefix(key, prefix@) implies #[trigger] r.admits(
                        key,
                    ) == in_range(key, prefix@, slice_view(start_after)) by {
                        prefix_sorts_first(key, prefix@);
                        if key != prefix@ {
                            lex_transitive(k@, prefix@, key);
                        }
                    }
                }
                r
            } else {
                let r = LowerBound::After(vstd::slice::slice_to_vec(k));
                proof {
                    assert forall|key: Seq<u8>| #[trigger] r.admits(key) implies lex_le(
                        prefix@,
                        key,
                    ) by {
                        lex_total(k@, prefix@);
                        if k@ != prefix@ {
                            lex_transitive(prefix@, k@, key);
                        }
                    }
                }
                r
            }
        },
        None => {
            let r = LowerBound::From(vstd::slice::slice_to_vec(prefix));
            proof {
                assert forall|key: Seq<u8>| has_prefix(key, prefix@) implies #[trigger] r.admits(
                    key,
                ) by {
                    prefix_sorts_first(key, prefix@);
                }
            }
            r
        },
    }
}

/// The entries at the front of `es` that are under `prefix`.
pub open spec fn leading(es: Seq<Entry>, prefix: Seq<u8>) -> Seq<Entry>
    decreases es.len(),
{
    if es.len() == 0 || !has_prefix(es[0].0, prefix) {
        Seq::empty()
    } else {
        seq![es[0]] + leading(es.drop_first(), prefix)
    }
}

/// A page taking shape while a store walks its keys from a scan's lower bound.
#[derive(Debug, Clone)]
pub struct PageBuilder {
    prefix: Vec<u8>,
    limit: usize,
    entries: Vec<(Vec<u8>, Vec<u8>)>,
    more: bool,
    closed: bool,
}

impl PageBuilder {
    pub closed spec fn bound(self) -> nat {
        self.limit as nat
    }

    pub closed spec fn scope(self) -> Seq<u8> {
        self.prefix@
    }

    /// The builder has been offered `es` and nothing else.
    pub closed spec fn has_seen(self, es: Seq<Entry>) -> bool {
        let run = leading(es, self.prefix@);
        let n = if run.len() <= self.limit {
            run.len()
        } else {
            self.limit as nat
        };
        &&& page_entries(self.entries@) == run.subrange(0, n as int)
        &&& self.more == (run.len() > self.limit)
        &&& self.closed == (run.len() < es.len() || run.len() > self.limit)
    }

    pub fn new(prefix: &[u8], limit: usize) -> (r: Self)
        ensures
            r.has_seen(Seq::empty()),
            r.scope() == prefix@,
            r.bound() == limit,
    {
        let r = PageBuilder {
            prefix: vstd::slice::slice_to_vec(prefix),
            limit,
            entries: Vec::new(),
            more: false,
            closed: false,
        };
        assert(page_entries(r.entries@) =~= Seq::<Entry>::empty().subrange(0, 0));
        r
    }

    /// Offer the next entry in key order. `false` means that the page is settled
    /// and nothing further needs reading.
    pub fn offer(&mut self, key: &[u8], value: &[u8]) -> (r: bool)
        ensures
            final(self).scope() == old(self).scope(),
            final(self).bound() == old(self).bound(),
            forall|es: Seq<Entry>| #[trigger]
                old(self).has_seen(es) ==> {
                    let now = es.push((key@, value@));
                    &&& final(self).has_seen(now)
                    &&& r == (leading(now, old(self).scope()) == now && now.len()
                        <= old(self).bound())
                },
    {
        let ghost before = *self;
        if !self.closed {
            if !starts_with(key, self.prefix.as_slice()) {
                self.closed = true;
            } else if self.entries.len() == self.limit {
                self.closed = true;
                self.more = true;
            } else {
                self.entries.push(
                    (vstd::slice::slice_to_vec(key), vstd::slice::slice_to_vec(value)),
                );
            }
        }
        proof {
            let this = *self;
            let e: Entry = (key@, value@);
            assert forall|es: Seq<Entry>| #[trigger] before.has_seen(es) implies {
                let now = es.push(e);
                &&& this.has_seen(now)
                &&& !this.closed == (leading(now, before.scope()) == now && now.len()
                    <= before.bound())
            } by {
                lemma_leading_push(es, e, before.prefix@);
                let run = leading(es, before.prefix@);
                let now = es.push(e);
                let next = leading(now, before.prefix@);
                if run.len() == es.len() {
                    assert(run =~= es);
                }
                if this.entries@.len() > before.entries@.len() {
                    assert(page_entries(this.entries@) =~= page_entries(before.entries@).push(e));
                    assert(next.subrange(0, next.len() as int) =~= run.subrange(
                        0,
                        run.len() as int,
                    ).push(e));
                } else {
                    assert(page_entries(before.entries@).len() == before.entries@.len());
                    let n = page_entries(before.entries@).len() as int;
                    assert(next.subrange(0, n) =~= run.subrange(0, n));
                }
            }
        }
        !self.closed
    }

    /// The page, once the builder has declined an entry or the keys ran out.
    pub fn finish(self) -> (r: Page)
        ensures
            forall|es: Seq<Entry>| #[trigger]
                self.has_seen(es) ==> is_page(r, leading(es, self.scope()), self.bound()),
    {
        let ghost this = self;
        let n: usize = self.entries.len();
        let next = if self.more && n > 0 {
            Some(vstd::slice::slice_to_vec(self.entries[n - 1].0.as_slice()))
        } else {
            None
        };
        let r = Page { entries: self.entries, next };
        proof {
            assert forall|es: Seq<Entry>| #[trigger] this.has_seen(es) implies is_page(
                r,
                leading(es, this.scope()),
                this.bound(),
            ) by {
                assert(page_entries(r.entries@).len() == r.entries@.len());
                let run = leading(es, this.prefix@);
                if r.next is Some {
                    assert(page_entries(r.entries@)[n - 1].0 == r.entries@[n - 1].0@);
                    assert(run.subrange(0, n as int)[n - 1] == run[n - 1]);
                }
            }
        }
        r
    }
}

/// The leading run of a longer sequence.
proof fn lemma_leading_push(es: Seq<Entry>, e: Entry, prefix: Seq<u8>)
    ensures
        leading(es, prefix).len() <= es.len(),
        leading(es, prefix) == es.subrange(0, leading(es, prefix).len() as int),
        leading(es.push(e), prefix) == if leading(es, prefix).len() == es.len() && has_prefix(
            e.0,
            prefix,
        ) {
            leading(es, prefix).push(e)
        } else {
            leading(es, prefix)
        },
    decreases es.len(),
{
    if es.len() == 0 {
        assert(es.push(e).drop_first() =~= Seq::<Entry>::empty());
        assert(leading(es.push(e).drop_first(), prefix) =~= Seq::<Entry>::empty());
        assert(leading(es, prefix) =~= es.subrange(0, 0));
        if has_prefix(e.0, prefix) {
            assert(leading(es.push(e), prefix) =~= leading(es, prefix).push(e));
        }
    } else {
        let rest = es.drop_first();
        assert(es.push(e).drop_first() =~= rest.push(e));
        lemma_leading_push(rest, e, prefix);
        if has_prefix(es[0].0, prefix) {
            let run = leading(rest, prefix);
            assert(leading(es, prefix) =~= es.subrange(0, run.len() as int + 1));
            if run.len() == rest.len() && has_prefix(e.0, prefix) {
                assert(seq![es[0]] + run.push(e) =~= (seq![es[0]] + run).push(e));
            }
        } else {
            assert(leading(es, prefix) =~= es.subrange(0, 0));
        }
    }
}

/// Of entries in key order that start at the prefix, the ones under it lead.
pub proof fn leading_is_all_under_the_prefix(es: Seq<Entry>, prefix: Seq<u8>)
    requires
        ordered(es),
        forall|i: int| 0 <= i < es.len() ==> lex_le(prefix, #[trigger] es[i].0),
    ensures
        leading(es, prefix) == es.filter(|e: Entry| has_prefix(e.0, prefix)),
    decreases es.len(),
{
    let under = |e: Entry| has_prefix(e.0, prefix);
    reveal(Seq::filter);
    if es.len() > 0 {
        let head = es.drop_last();
        let last = es.last();
        assert forall|a: int, b: int| 0 <= a < b < head.len() implies lex_lt(
            #[trigger] head[a].0,
            #[trigger] head[b].0,
        ) by {
            assert(lex_lt(es[a].0, es[b].0));
        }
        assert forall|i: int| 0 <= i < head.len() implies lex_le(prefix, #[trigger] head[i].0) by {
            assert(lex_le(prefix, es[i].0));
        }
        leading_is_all_under_the_prefix(head, prefix);
        assert(head.push(last) =~= es);
        lemma_leading_push(head, last, prefix);
        let run = leading(head, prefix);
        if run.len() < head.len() {
            lemma_leading_stops(head, prefix);
            let k = run.len() as int;
            assert(lex_le(prefix, es[k].0));
            assert(lex_lt(es[k].0, es[es.len() - 1].0));
            prefix_keys_are_contiguous(prefix, head[k].0, last.0);
        }
    } else {
        assert(leading(es, prefix) =~= es.filter(under));
    }
}

/// The entry behind the leading run is not under the prefix.
proof fn lemma_leading_stops(es: Seq<Entry>, prefix: Seq<u8>)
    ensures
        leading(es, prefix).len() <= es.len(),
        leading(es, prefix).len() < es.len() ==> !has_prefix(
            es[leading(es, prefix).len() as int].0,
            prefix,
        ),
    decreases es.len(),
{
    if es.len() > 0 && has_prefix(es[0].0, prefix) {
        lemma_leading_stops(es.drop_first(), prefix);
    }
}

/// A store that reads its entries in key order from a scan's lower bound finds
/// what the scan lists at the front of what it reads.
pub proof fn walking_from_the_bound_lists(
    es: Seq<Entry>,
    prefix: Seq<u8>,
    start_after: Option<Seq<u8>>,
    bound: LowerBound,
)
    requires
        ordered(es),
        forall|key: Seq<u8>|
            has_prefix(key, prefix) ==> #[trigger] bound.admits(key) == in_range(
                key,
                prefix,
                start_after,
            ),
        forall|key: Seq<u8>| #[trigger] bound.admits(key) ==> lex_le(prefix, key),
    ensures
        leading(es.filter(|e: Entry| bound.admits(e.0)), prefix) == listing(
            es,
            prefix,
            start_after,
        ),
{
    let admitted = |e: Entry| bound.admits(e.0);
    let under = |e: Entry| has_prefix(e.0, prefix);
    let read = es.filter(admitted);
    lemma_filter_keeps_order(es, admitted);
    assert forall|i: int| 0 <= i < read.len() implies lex_le(prefix, #[trigger] read[i].0) by {
        assert(admitted(read[i]));
    }
    leading_is_all_under_the_prefix(read, prefix);
    lemma_filter_twice(es, admitted, under, |e: Entry| in_range(e.0, prefix, start_after));
}

/// A filter keeps what it keeps in order.
pub proof fn lemma_filter_keeps_order(es: Seq<Entry>, keep: spec_fn(Entry) -> bool)
    requires
        ordered(es),
    ensures
        ordered(es.filter(keep)),
        forall|i: int| 0 <= i < es.filter(keep).len() ==> keep(#[trigger] es.filter(keep)[i]),
        forall|i: int| 0 <= i < es.filter(keep).len() ==> es.contains(#[trigger] es.filter(keep)[i]),
    decreases es.len(),
{
    reveal(Seq::filter);
    if es.len() > 0 {
        let head = es.drop_last();
        let last = es.last();
        assert forall|a: int, b: int| 0 <= a < b < head.len() implies lex_lt(
            #[trigger] head[a].0,
            #[trigger] head[b].0,
        ) by {
            assert(lex_lt(es[a].0, es[b].0));
        }
        lemma_filter_keeps_order(head, keep);
        let part = head.filter(keep);
        assert forall|i: int| 0 <= i < part.len() implies lex_lt(#[trigger] part[i].0, last.0)
            && es.contains(part[i]) by {
            assert(head.contains(part[i]));
            let j = choose|j: int| 0 <= j < head.len() && head[j] == part[i];
            assert(es[j] == part[i]);
            assert(lex_lt(es[j].0, es[es.len() - 1].0));
        }
        assert(es[es.len() - 1] == last);
    }
}

/// Filtering twice is filtering by both.
pub proof fn lemma_filter_twice<A>(
    s: Seq<A>,
    f: spec_fn(A) -> bool,
    g: spec_fn(A) -> bool,
    both: spec_fn(A) -> bool,
)
    requires
        forall|a: A| #[trigger] both(a) == (f(a) && g(a)),
    ensures
        s.filter(f).filter(g) == s.filter(both),
    decreases s.len(),
{
    reveal(Seq::filter);
    if s.len() > 0 {
        lemma_filter_twice(s.drop_last(), f, g, both);
        let a = s.last();
        assert(both(a) == (f(a) && g(a)));
        if f(a) {
            let t = s.drop_last().filter(f);
            assert(t.push(a).drop_last() =~= t);
        }
    } else {
        assert(s.filter(f) =~= s);
    }
}

} // verus!
