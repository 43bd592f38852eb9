//! The metadata engine boundary.
//!
//! Reads are point lookups, bounded ordered scans, and prefix-existence checks.
//! Writes go through [`WriteBatch`] and nothing else: it lands whole or not at
//! all, and it is a self-contained description of a change that can be replayed.
//!
//! There is deliberately no read-modify-write primitive. The key schema has no
//! value whose size grows with the registry, so every write is a plain insert or
//! delete.
use vstd::prelude::*;

use crate::bytes::{has_prefix, lex_asymmetric, lex_irreflexive, lex_lt, lex_transitive};
use crate::error::Result;

verus! {

/// A single mutation, free of reference to engine internals.
#[derive(Debug, Clone, PartialEq, Eq)]
pub enum MetaOp {
    Put { key: Vec<u8>, value: Vec<u8> },
    Delete { key: Vec<u8> },
    /// Remove every key under `prefix`. Used when dropping a repo or a
    /// manifest's edge set, where enumerating first would be wasteful.
    DeletePrefix { prefix: Vec<u8> },
}

/// An atomically applied group of [`MetaOp`]s.
#[derive(Debug, Clone, PartialEq, Eq)]
pub struct WriteBatch {
    pub ops: Vec<MetaOp>,
}

/// One page of a scan.
#[derive(Debug, Clone)]
pub struct Page {
    pub entries: Vec<(Vec<u8>, Vec<u8>)>,
    /// Key to pass as the next `start_after`. `None` means the scan is
    /// exhausted, which is how a handler decides whether to emit a `Link`
    /// header for the next page.
    pub next: Option<Vec<u8>>,
}

// --- the model -----------------------------------------------------------

/// A key and the value stored against it.
pub type Entry = (Seq<u8>, Seq<u8>);

/// The entries stand in key order, each key once.
pub open spec fn ordered(es: Seq<Entry>) -> bool {
    forall|i: int, j: int| 0 <= i < j < es.len() ==> lex_lt(#[trigger] es[i].0, #[trigger] es[j].0)
}

/// What the entries say as a table.
pub open spec fn table(es: Seq<Entry>) -> Map<Seq<u8>, Seq<u8>>
    decreases es.len(),
{
    if es.len() == 0 {
        Map::empty()
    } else {
        table(es.drop_last()).insert(es.last().0, es.last().1)
    }
}

/// The value against `key`, if there is one.
pub open spec fn lookup(es: Seq<Entry>, key: Seq<u8>) -> Option<Seq<u8>> {
    if table(es).contains_key(key) {
        Some(table(es)[key])
    } else {
        None
    }
}

/// `key` is under `prefix` and after the cursor.
pub open spec fn in_range(key: Seq<u8>, prefix: Seq<u8>, start_after: Option<Seq<u8>>) -> bool {
    &&& has_prefix(key, prefix)
    &&& start_after matches Some(a) ==> lex_lt(a, key)
}

/// Everything a scan would ever return, in order.
pub open spec fn listing(es: Seq<Entry>, prefix: Seq<u8>, start_after: Option<Seq<u8>>) -> Seq<
    Entry,
> {
    es.filter(|e: Entry| in_range(e.0, prefix, start_after))
}

/// Some key is under `prefix`.
pub open spec fn has_key_under(es: Seq<Entry>, prefix: Seq<u8>) -> bool {
    exists|i: int| 0 <= i < es.len() && has_prefix(#[trigger] es[i].0, prefix)
}

/// The entries of a page, as the model has them.
pub open spec fn page_entries(entries: Seq<(Vec<u8>, Vec<u8>)>) -> Seq<Entry> {
    entries.map_values(|e: (Vec<u8>, Vec<u8>)| (e.0@, e.1@))
}

/// Either of two optional byte strings.
pub open spec fn bytes_view(v: Option<Vec<u8>>) -> Option<Seq<u8>> {
    match v {
        Some(b) => Some(b@),
        None => None,
    }
}

pub open spec fn slice_view(v: Option<&[u8]>) -> Option<Seq<u8>> {
    match v {
        Some(b) => Some(b@),
        None => None,
    }
}

/// `page` is the first `limit` of what is listed. It names its last key as the
/// cursor exactly when something is listed behind it, and a limit of zero gives
/// an empty page with no cursor.
pub open spec fn is_page(page: Page, list: Seq<Entry>, limit: nat) -> bool {
    let n = if list.len() <= limit {
        list.len()
    } else {
        limit
    };
    &&& page_entries(page.entries@) == list.subrange(0, n as int)
    &&& bytes_view(page.next) == if 0 < limit < list.len() {
        Some(list[limit - 1].0)
    } else {
        None
    }
}

/// What a mutation says.
pub enum OpView {
    Put(Seq<u8>, Seq<u8>),
    Delete(Seq<u8>),
    DeletePrefix(Seq<u8>),
}

impl View for MetaOp {
    type V = OpView;

    open spec fn view(&self) -> OpView {
        match self {
            MetaOp::Put { key, value } => OpView::Put(key@, value@),
            MetaOp::Delete { key } => OpView::Delete(key@),
            MetaOp::DeletePrefix { prefix } => OpView::DeletePrefix(prefix@),
        }
    }
}

impl View for WriteBatch {
    type V = Seq<OpView>;

    open spec fn view(&self) -> Seq<OpView> {
        self.ops@.map_values(|op: MetaOp| op@)
    }
}

/// One mutation of the table.
pub open spec fn op_applied(m: Map<Seq<u8>, Seq<u8>>, op: OpView) -> Map<Seq<u8>, Seq<u8>> {
    match op {
        OpView::Put(key, value) => m.insert(key, value),
        OpView::Delete(key) => m.remove(key),
        OpView::DeletePrefix(prefix) => m.restrict(
            Set::new(|k: Seq<u8>| m.contains_key(k) && !has_prefix(k, prefix)),
        ),
    }
}

/// All mutations of a batch, first to last.
pub open spec fn applied(m: Map<Seq<u8>, Seq<u8>>, ops: Seq<OpView>) -> Map<Seq<u8>, Seq<u8>>
    decreases ops.len(),
{
    if ops.len() == 0 {
        m
    } else {
        op_applied(applied(m, ops.drop_last()), ops.last())
    }
}

/// What a batch says of one key: the value it leaves there, `None` where it
/// leaves none, or nothing at all.
pub open spec fn last_word(ops: Seq<OpView>, k: Seq<u8>) -> Option<Option<Seq<u8>>>
    decreases ops.len(),
{
    if ops.len() == 0 {
        None
    } else {
        match ops.last() {
            OpView::Put(key, value) if key == k => Some(Some(value)),
            OpView::Delete(key) if key == k => Some(None),
            OpView::DeletePrefix(prefix) if has_prefix(k, prefix) => Some(None),
            _ => last_word(ops.drop_last(), k),
        }
    }
}

/// A batch leaves against each key what it says of it, and every other key as
/// it was.
pub proof fn applied_by_last_word(m: Map<Seq<u8>, Seq<u8>>, ops: Seq<OpView>, k: Seq<u8>)
    ensures
        match last_word(ops, k) {
            Some(Some(v)) => applied(m, ops).contains_key(k) && applied(m, ops)[k] == v,
            Some(None) => !applied(m, ops).contains_key(k),
            None => applied(m, ops).contains_key(k) == m.contains_key(k) && (m.contains_key(k)
                ==> applied(m, ops)[k] == m[k]),
        },
    decreases ops.len(),
{
    if ops.len() > 0 {
        applied_by_last_word(m, ops.drop_last(), k);
    }
}

/// Replaying a batch changes nothing more.
pub proof fn batches_are_idempotent(m: Map<Seq<u8>, Seq<u8>>, ops: Seq<OpView>)
    ensures
        applied(applied(m, ops), ops) == applied(m, ops),
{
    let once = applied(m, ops);
    let twice = applied(once, ops);
    assert forall|k: Seq<u8>|
        #![trigger twice.dom().contains(k)]
        #![trigger once.dom().contains(k)]
        #![trigger twice[k]]
        twice.contains_key(k) == once.contains_key(k) && (once.contains_key(k) ==> twice[k]
            == once[k]) by {
        applied_by_last_word(m, ops, k);
        applied_by_last_word(once, ops, k);
    }
    assert(twice.dom() =~= once.dom());
    assert(twice =~= once);
}

/// A batch applied in two parts is the batch applied whole.
pub proof fn applied_concat(m: Map<Seq<u8>, Seq<u8>>, a: Seq<OpView>, b: Seq<OpView>)
    ensures
        applied(m, a + b) == applied(applied(m, a), b),
    decreases b.len(),
{
    if b.len() == 0 {
        assert(a + b =~= a);
    } else {
        assert((a + b).drop_last() =~= a + b.drop_last());
        applied_concat(m, a, b.drop_last());
    }
}

// --- the interface ---------------------------------------------------------

impl Default for WriteBatch {
    fn default() -> (r: Self)
        ensures
            r@ == Seq::<OpView>::empty(),
    {
        WriteBatch::new()
    }
}

impl WriteBatch {
    pub fn new() -> (r: Self)
        ensures
            r@ == Seq::<OpView>::empty(),
    {
        let r = WriteBatch { ops: Vec::new() };
        assert(r@ =~= Seq::<OpView>::empty());
        r
    }

    /// Add a mutation.
    fn push(&mut self, op: MetaOp)
        ensures
            final(self)@ == old(self)@.push(op@),
    {
        self.ops.push(op);
        assert(self@ =~= old(self)@.push(op@));
    }

    pub fn put(&mut self, key: Vec<u8>, value: Vec<u8>) -> (r: &mut Self)
        ensures
            r@ == old(self)@.push(OpView::Put(key@, value@)),
            *final(self) == *final(r),
    {
        self.push(MetaOp::Put { key, value });
        self
    }

    /// Insert an edge key. Edges carry no value; presence is the fact.
    pub fn set(&mut self, key: Vec<u8>) -> (r: &mut Self)
        ensures
            r@ == old(self)@.push(OpView::Put(key@, Seq::empty())),
            *final(self) == *final(r),
    {
        let value: Vec<u8> = Vec::new();
        assert(value@ =~= Seq::<u8>::empty());
        self.push(MetaOp::Put { key, value });
        self
    }

    pub fn delete(&mut self, key: Vec<u8>) -> (r: &mut Self)
        ensures
            r@ == old(self)@.push(OpView::Delete(key@)),
            *final(self) == *final(r),
    {
        self.push(MetaOp::Delete { key });
        self
    }

    pub fn delete_prefix(&mut self, prefix: Vec<u8>) -> (r: &mut Self)
        ensures
            r@ == old(self)@.push(OpView::DeletePrefix(prefix@)),
            *final(self) == *final(r),
    {
        self.push(MetaOp::DeletePrefix { prefix });
        self
    }

    pub fn is_empty(&self) -> (r: bool)
        ensures
            r == (self@.len() == 0),
    {
        self.ops.len() == 0
    }

    pub fn len(&self) -> (r: usize)
        ensures
            r == self@.len(),
    {
        self.ops.len()
    }
}

/// What a metadata store offers the registry. A store may fail at any call; it
/// then says so and has changed nothing.
pub trait MetaEngine {
    /// What the store holds, in key order. A store that is not itself verified
    /// leaves this unsaid, and the next two with it.
    open spec fn entries(&self) -> Seq<Entry> {
        arbitrary()
    }

    /// The store's own representation is sound.
    open spec fn valid(&self) -> bool {
        arbitrary()
    }

    /// The store answers every call.
    open spec fn reliable(&self) -> bool {
        arbitrary()
    }

    fn get(&self, key: &[u8]) -> (r: Result<Option<Vec<u8>>>)
        requires
            self.valid(),
        ensures
            match r {
                Ok(v) => bytes_view(v) == lookup(self.entries(), key@),
                Err(e) => e is Storage && !self.reliable(),
            },
    ;

    /// Ordered scan of at most `limit` entries under `prefix`, resuming
    /// strictly after `start_after`.
    ///
    /// Bounded by construction: there is no call that materialises a whole
    /// prefix. A ten-million-repo catalog is only ever read a page at a time.
    fn scan(&self, prefix: &[u8], start_after: Option<&[u8]>, limit: usize) -> (r: Result<Page>)
        requires
            self.valid(),
        ensures
            match r {
                Ok(page) => is_page(
                    page,
                    listing(self.entries(), prefix@, slice_view(start_after)),
                    limit as nat,
                ),
                Err(e) => e is Storage && !self.reliable(),
            },
    ;

    /// Whether any key exists under `prefix`, without decoding a value.
    ///
    /// This is the purge hot path: "is this blob still referenced?" is one seek.
    fn exists_prefix(&self, prefix: &[u8]) -> (r: Result<bool>)
        requires
            self.valid(),
        ensures
            match r {
                Ok(b) => b == has_key_under(self.entries(), prefix@),
                Err(e) => e is Storage && !self.reliable(),
            },
    ;

    /// Apply a whole batch.
    fn apply(&mut self, batch: &WriteBatch) -> (r: Result<()>)
        requires
            old(self).valid(),
        ensures
            final(self).valid(),
            final(self).reliable() == old(self).reliable(),
            ordered(old(self).entries()) ==> ordered(final(self).entries()),
            match r {
                Ok(()) => table(final(self).entries()) == applied(
                    table(old(self).entries()),
                    batch@,
                ),
                Err(e) => e is Storage && !old(self).reliable() && final(self).entries() == old(
                    self,
                ).entries(),
            },
    ;
}

// --- laws ------------------------------------------------------------------

/// In ordered entries a key's value is the one beside it.
pub proof fn lemma_lookup_at(es: Seq<Entry>, i: int)
    requires
        ordered(es),
        0 <= i < es.len(),
    ensures
        lookup(es, es[i].0) == Some(es[i].1),
    decreases es.len(),
{
    let n = es.len() - 1;
    if i < n {
        let head = es.drop_last();
        assert(ordered(head)) by {
            assert forall|a: int, b: int| 0 <= a < b < head.len() implies lex_lt(
                #[trigger] head[a].0,
                #[trigger] head[b].0,
            ) by {
                assert(lex_lt(es[a].0, es[b].0));
            }
        }
        lemma_lookup_at(head, i);
        assert(lex_lt(es[i].0, es[n].0));
        lex_asymmetric(es[i].0, es[n].0);
    }
}

/// A key with a value stands among the entries.
pub proof fn lemma_table_key_is_entry(es: Seq<Entry>, k: Seq<u8>)
    requires
        table(es).contains_key(k),
    ensures
        exists|i: int| 0 <= i < es.len() && #[trigger] es[i] == (k, table(es)[k]),
    decreases es.len(),
{
    if es.len() > 0 {
        if es.last().0 == k {
            assert(es[es.len() - 1] == (k, table(es)[k]));
        } else {
            lemma_table_key_is_entry(es.drop_last(), k);
            let i = choose|i: int|
                0 <= i < es.drop_last().len() && #[trigger] es.drop_last()[i] == (k, table(
                    es.drop_last(),
                )[k]);
            assert(es[i] == (k, table(es)[k]));
        }
    }
}

/// What is listed is in key order, is in range, and is in the store.
pub proof fn lemma_listing(es: Seq<Entry>, prefix: Seq<u8>, start_after: Option<Seq<u8>>)
    requires
        ordered(es),
    ensures
        ordered(listing(es, prefix, start_after)),
        forall|i: int|
            0 <= i < listing(es, prefix, start_after).len() ==> in_range(
                #[trigger] listing(es, prefix, start_after)[i].0,
                prefix,
                start_after,
            ),
        forall|i: int|
            0 <= i < listing(es, prefix, start_after).len() ==> es.contains(
                #[trigger] listing(es, prefix, start_after)[i],
            ),
    decreases es.len(),
{
    reveal(Seq::filter);
    if es.len() > 0 {
        let head = es.drop_last();
        let last = es.last();
        assert forall|a: int, b: int| 0 <= a < b < head.len() implies lex_lt(
            #[trigger] head[a].0,
            #[trigger] head[b].0,
        ) by {
            assert(lex_lt(es[a].0, es[b].0));
        }
        lemma_listing(head, prefix, start_after);
        let part = listing(head, prefix, start_after);
        let whole = listing(es, prefix, start_after);
        assert forall|i: int| 0 <= i < part.len() implies lex_lt(#[trigger] part[i].0, last.0)
            && es.contains(part[i]) by {
            assert(head.contains(part[i]));
            let j = choose|j: int| 0 <= j < head.len() && head[j] == part[i];
            assert(es[j] == part[i]);
            assert(lex_lt(es[j].0, es[es.len() - 1].0));
        }
        if in_range(last.0, prefix, start_after) {
            assert(whole =~= part.push(last));
            assert(es[es.len() - 1] == last);
        } else {
            assert(whole =~= part);
        }
    }
}

/// Every entry in range is listed.
pub proof fn lemma_listing_is_complete(
    es: Seq<Entry>,
    prefix: Seq<u8>,
    start_after: Option<Seq<u8>>,
    i: int,
)
    requires
        0 <= i < es.len(),
        in_range(es[i].0, prefix, start_after),
    ensures
        listing(es, prefix, start_after).contains(es[i]),
    decreases es.len(),
{
    reveal(Seq::filter);
    let whole = listing(es, prefix, start_after);
    if i == es.len() - 1 {
        assert(whole[whole.len() - 1] == es[i]);
    } else {
        let head = es.drop_last();
        lemma_listing_is_complete(head, prefix, start_after, i);
        let part = listing(head, prefix, start_after);
        let k = choose|k: int| 0 <= k < part.len() && part[k] == head[i];
        assert(whole[k] == es[i]);
    }
}

/// Entries in key order that agree as sets are the same entries.
pub proof fn lemma_ordered_unique(a: Seq<Entry>, b: Seq<Entry>)
    requires
        ordered(a),
        ordered(b),
        forall|i: int| 0 <= i < a.len() ==> b.contains(#[trigger] a[i]),
        forall|i: int| 0 <= i < b.len() ==> a.contains(#[trigger] b[i]),
    ensures
        a == b,
    decreases a.len(),
{
    if a.len() == 0 {
        if b.len() > 0 {
            assert(a.contains(b[0]));
        }
        assert(a =~= b);
    } else {
        let (m, n) = (a.len() - 1, b.len() - 1);
        assert(b.contains(a[m]));
        let i = choose|i: int| 0 <= i < b.len() && b[i] == a[m];
        assert(a.contains(b[n]));
        let j = choose|j: int| 0 <= j < a.len() && a[j] == b[n];
        if i < n {
            assert(lex_lt(b[i].0, b[n].0));
            lex_asymmetric(b[i].0, b[n].0);
            if j < m {
                assert(lex_lt(a[j].0, a[m].0));
                lex_transitive(a[j].0, a[m].0, b[n].0);
                lex_irreflexive(a[j].0);
            }
            lex_irreflexive(a[m].0);
        }
        assert(a[m] == b[n]);
        let (c, d) = (a.drop_last(), b.drop_last());
        assert forall|k: int| 0 <= k < c.len() implies d.contains(#[trigger] c[k]) by {
            assert(b.contains(a[k]));
            let x = choose|x: int| 0 <= x < b.len() && b[x] == a[k];
            assert(lex_lt(a[k].0, a[m].0));
            lex_irreflexive(a[m].0);
            assert(x != n);
            assert(d[x] == c[k]);
        }
        assert forall|k: int| 0 <= k < d.len() implies c.contains(#[trigger] d[k]) by {
            assert(a.contains(b[k]));
            let x = choose|x: int| 0 <= x < a.len() && a[x] == b[k];
            assert(lex_lt(b[k].0, b[n].0));
            lex_irreflexive(b[n].0);
            assert(x != m);
            assert(c[x] == d[k]);
        }
        assert forall|x: int, y: int| 0 <= x < y < c.len() implies lex_lt(
            #[trigger] c[x].0,
            #[trigger] c[y].0,
        ) by {
            assert(lex_lt(a[x].0, a[y].0));
        }
        assert forall|x: int, y: int| 0 <= x < y < d.len() implies lex_lt(
            #[trigger] d[x].0,
            #[trigger] d[y].0,
        ) by {
            assert(lex_lt(b[x].0, b[y].0));
        }
        lemma_ordered_unique(c, d);
        assert(a =~= c.push(a[m]));
        assert(b =~= d.push(b[n]));
    }
}

/// Two stores that answer every lookup alike hold the same entries.
pub proof fn stores_that_answer_alike_hold_the_same(a: Seq<Entry>, b: Seq<Entry>)
    requires
        ordered(a),
        ordered(b),
        table(a) == table(b),
    ensures
        a == b,
{
    assert forall|i: int| 0 <= i < a.len() implies b.contains(#[trigger] a[i]) by {
        lemma_lookup_at(a, i);
        lemma_table_key_is_entry(b, a[i].0);
    }
    assert forall|i: int| 0 <= i < b.len() implies a.contains(#[trigger] b[i]) by {
        lemma_lookup_at(b, i);
        lemma_table_key_is_entry(a, b[i].0);
    }
    lemma_ordered_unique(a, b);
}

/// Resuming a scan after the `n`-th key it gave continues with the next: pages
/// lose nothing and repeat nothing.
pub proof fn resuming_a_scan_continues_it(
    es: Seq<Entry>,
    prefix: Seq<u8>,
    start_after: Option<Seq<u8>>,
    n: int,
)
    requires
        ordered(es),
        0 < n <= listing(es, prefix, start_after).len(),
    ensures
        listing(es, prefix, Some(listing(es, prefix, start_after)[n - 1].0)) == listing(
            es,
            prefix,
            start_after,
        ).subrange(n, listing(es, prefix, start_after).len() as int),
{
    let list = listing(es, prefix, start_after);
    let cursor = list[n - 1].0;
    let rest = list.subrange(n, list.len() as int);
    let next = listing(es, prefix, Some(cursor));
    lemma_listing(es, prefix, start_after);
    lemma_listing(es, prefix, Some(cursor));
    assert(in_range(list[n - 1].0, prefix, start_after));
    assert forall|i: int, j: int| 0 <= i < j < rest.len() implies lex_lt(
        #[trigger] rest[i].0,
        #[trigger] rest[j].0,
    ) by {
        assert(lex_lt(list[i + n].0, list[j + n].0));
    }
    assert forall|i: int| 0 <= i < rest.len() implies next.contains(#[trigger] rest[i]) by {
        assert(rest[i] == list[i + n]);
        assert(lex_lt(list[n - 1].0, list[i + n].0));
        assert(in_range(list[i + n].0, prefix, start_after));
        assert(es.contains(list[i + n]));
        let k = choose|k: int| 0 <= k < es.len() && es[k] == list[i + n];
        lemma_listing_is_complete(es, prefix, Some(cursor), k);
    }
    assert forall|i: int| 0 <= i < next.len() implies rest.contains(#[trigger] next[i]) by {
        assert(in_range(next[i].0, prefix, Some(cursor)));
        assert(es.contains(next[i]));
        let k = choose|k: int| 0 <= k < es.len() && es[k] == next[i];
        if start_after is Some {
            lex_transitive(start_after->0, cursor, es[k].0);
        }
        lemma_listing_is_complete(es, prefix, start_after, k);
        let x = choose|x: int| 0 <= x < list.len() && list[x] == next[i];
        if x < n {
            if x < n - 1 {
                assert(lex_lt(list[x].0, list[n - 1].0));
                lex_asymmetric(list[x].0, list[n - 1].0);
            } else {
                lex_irreflexive(cursor);
            }
        }
        assert(rest[x - n] == next[i]);
    }
    lemma_ordered_unique(next, rest);
}

/// A scan finds something exactly where a key is under its prefix.
pub proof fn lemma_listing_is_empty_iff_no_key(es: Seq<Entry>, prefix: Seq<u8>)
    requires
        ordered(es),
    ensures
        has_key_under(es, prefix) == (listing(es, prefix, None).len() > 0),
{
    lemma_listing(es, prefix, None);
    if has_key_under(es, prefix) {
        let i = choose|i: int| 0 <= i < es.len() && has_prefix(#[trigger] es[i].0, prefix);
        lemma_listing_is_complete(es, prefix, None, i);
    }
    if listing(es, prefix, None).len() > 0 {
        let e = listing(es, prefix, None)[0];
        assert(in_range(listing(es, prefix, None)[0].0, prefix, None));
        assert(es.contains(e));
        let i = choose|i: int| 0 <= i < es.len() && es[i] == e;
        assert(has_prefix(es[i].0, prefix));
    }
}

/// What is put is read back, what is deleted is gone, and what is under a deleted prefix
/// is gone. Every other key keeps what it held.
pub proof fn a_mutation_does_what_it_says(
    m: Map<Seq<u8>, Seq<u8>>,
    key: Seq<u8>,
    value: Seq<u8>,
    k: Seq<u8>,
)
    ensures
        ({
            let put = applied(m, seq![OpView::Put(key, value)]);
            let deleted = applied(m, seq![OpView::Delete(key)]);
            let swept = applied(m, seq![OpView::DeletePrefix(key)]);
            &&& put.contains_key(key) && put[key] == value
            &&& !deleted.contains_key(key)
            &&& has_prefix(k, key) ==> !swept.contains_key(k)
            &&& k != key ==> put.contains_key(k) == m.contains_key(k) && deleted.contains_key(k)
                == m.contains_key(k)
            &&& !has_prefix(k, key) ==> swept.contains_key(k) == m.contains_key(k)
            &&& k != key && m.contains_key(k) ==> put[k] == m[k] && deleted[k] == m[k]
            &&& !has_prefix(k, key) && m.contains_key(k) ==> swept[k] == m[k]
        }),
{
    lemma_one_applied(m, OpView::Put(key, value));
    lemma_one_applied(m, OpView::Delete(key));
    lemma_one_applied(m, OpView::DeletePrefix(key));
}

proof fn lemma_one_applied(m: Map<Seq<u8>, Seq<u8>>, op: OpView)
    ensures
        applied(m, seq![op]) == op_applied(m, op),
{
    assert(seq![op].drop_last() =~= Seq::<OpView>::empty());
    assert(applied(m, Seq::<OpView>::empty()) == m);
}

/// Batches are applied in order: what comes later has the last word.
pub proof fn the_later_mutation_wins(
    m: Map<Seq<u8>, Seq<u8>>,
    key: Seq<u8>,
    a: Seq<u8>,
    b: Seq<u8>,
)
    ensures
        ({
            let twice = applied(m, seq![OpView::Put(key, a), OpView::Put(key, b)]);
            let gone = applied(m, seq![OpView::Put(key, a), OpView::Delete(key)]);
            let back = applied(m, seq![OpView::Delete(key), OpView::Put(key, b)]);
            &&& twice.contains_key(key) && twice[key] == b
            &&& !gone.contains_key(key)
            &&& back.contains_key(key) && back[key] == b
        }),
{
    let (x, y, d) = (OpView::Put(key, a), OpView::Put(key, b), OpView::Delete(key));
    assert(seq![x, y].drop_last() =~= seq![x]);
    assert(seq![x, d].drop_last() =~= seq![x]);
    assert(seq![d, y].drop_last() =~= seq![d]);
}

/// A key is looked up where it stands: the value of the one entry that has it, and
/// nothing where no entry does.
pub proof fn a_lookup_finds_the_entry(es: Seq<Entry>, i: int, k: Seq<u8>)
    requires
        ordered(es),
    ensures
        0 <= i < es.len() ==> lookup(es, es[i].0) == Some(es[i].1),
        (forall|x: int| 0 <= x < es.len() ==> (#[trigger] es[x]).0 != k) ==> lookup(es, k) is None,
{
    if 0 <= i < es.len() {
        lemma_lookup_at(es, i);
    }
    if lookup(es, k) is Some {
        lemma_table_key_is_entry(es, k);
        let j = choose|j: int| 0 <= j < es.len() && #[trigger] es[j] == (k, table(es)[k]);
        assert(es[j].0 == k);
    }
}

/// A scan shows an entry exactly where its key begins with the prefix and stands behind
/// the cursor.
pub proof fn a_scan_shows_what_is_asked_for(
    es: Seq<Entry>,
    prefix: Seq<u8>,
    rest: Seq<u8>,
    cursor: Seq<u8>,
    i: int,
)
    requires
        ordered(es),
        0 <= i < es.len(),
    ensures
        es[i].0 == prefix + rest ==> listing(es, prefix, None).contains(es[i]),
        es[i].0 == prefix + rest && lex_lt(cursor, es[i].0) ==> listing(
            es,
            prefix,
            Some(cursor),
        ).contains(es[i]),
        es[i].0 == cursor || lex_lt(es[i].0, cursor) ==> !listing(
            es,
            prefix,
            Some(cursor),
        ).contains(es[i]),
        !has_prefix(es[i].0, prefix) ==> !listing(es, prefix, None).contains(es[i]) && !listing(
            es,
            prefix,
            Some(cursor),
        ).contains(es[i]),
{
    if es[i].0 == prefix + rest {
        crate::bytes::a_prefix_is_how_it_begins(es[i].0, prefix, rest);
        lemma_listing_is_complete(es, prefix, None, i);
        if lex_lt(cursor, es[i].0) {
            lemma_listing_is_complete(es, prefix, Some(cursor), i);
        }
    }
    lemma_listing(es, prefix, None);
    lemma_listing(es, prefix, Some(cursor));
    if listing(es, prefix, Some(cursor)).contains(es[i]) {
        let list = listing(es, prefix, Some(cursor));
        let x = choose|x: int| 0 <= x < list.len() && list[x] == es[i];
        assert(in_range(list[x].0, prefix, Some(cursor)));
        crate::bytes::lex_irreflexive(cursor);
        if lex_lt(es[i].0, cursor) {
            crate::bytes::lex_asymmetric(es[i].0, cursor);
        }
    }
    if listing(es, prefix, None).contains(es[i]) {
        let list = listing(es, prefix, None);
        let x = choose|x: int| 0 <= x < list.len() && list[x] == es[i];
        assert(in_range(list[x].0, prefix, None));
    }
}

} // verus!
