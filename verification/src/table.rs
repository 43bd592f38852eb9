//! Ordered tables in memory.
use vstd::prelude::*;
use vstd::utf8::*;

use crate::bytes::{bytes_lt, lex_irreflexive, lex_lt, lex_total, lex_transitive};
use crate::digest::{encoded_digest_is_injective, Digest};
use crate::text::str_eq;

verus! {

/// What a table can be ordered by.
pub trait Key: Sized {
    /// What a key says.
    type Model;

    spec fn model(&self) -> Self::Model;

    /// The bytes that keys are ordered by.
    spec fn order(m: Self::Model) -> Seq<u8>;

    /// Different keys have different places.
    proof fn order_tells_apart(a: Self::Model, b: Self::Model)
        requires
            Self::order(a) == Self::order(b),
        ensures
            a == b,
    ;

    fn before(&self, other: &Self) -> (r: bool)
        ensures
            r == lex_lt(Self::order(self.model()), Self::order(other.model())),
    ;

    fn same(&self, other: &Self) -> (r: bool)
        ensures
            r == (self.model() == other.model()),
    ;
}

/// Texts are ordered by their bytes.
impl Key for String {
    type Model = Seq<char>;

    open spec fn model(&self) -> Seq<char> {
        self@
    }

    open spec fn order(m: Seq<char>) -> Seq<u8> {
        encode_utf8(m)
    }

    proof fn order_tells_apart(a: Seq<char>, b: Seq<char>) {
        encode_utf8_decode_utf8(a);
        encode_utf8_decode_utf8(b);
    }

    fn before(&self, other: &String) -> (r: bool) {
        bytes_lt(self.as_str().as_bytes(), other.as_str().as_bytes())
    }

    fn same(&self, other: &String) -> (r: bool) {
        str_eq(self.as_str(), other.as_str())
    }
}

/// Digests are ordered by algorithm and then by their bytes.
impl Key for Digest {
    type Model = Digest;

    open spec fn model(&self) -> Digest {
        *self
    }

    open spec fn order(m: Digest) -> Seq<u8> {
        m.encoded()
    }

    proof fn order_tells_apart(a: Digest, b: Digest) {
        encoded_digest_is_injective(a, b);
    }

    fn before(&self, other: &Digest) -> (r: bool) {
        let mut a: Vec<u8> = Vec::new();
        self.encode_into(&mut a);
        let mut b: Vec<u8> = Vec::new();
        other.encode_into(&mut b);
        assert(a@ =~= self.encoded());
        assert(b@ =~= other.encoded());
        bytes_lt(a.as_slice(), b.as_slice())
    }

    fn same(&self, other: &Digest) -> (r: bool) {
        crate::storage::store::same_digest(self, other)
    }
}

impl View for Digest {
    type V = Digest;

    open spec fn view(&self) -> Digest {
        *self
    }
}

/// Keys in their order, none twice.
pub open spec fn ascending<K: Key>(keys: Seq<K::Model>) -> bool {
    forall|i: int, j: int|
        0 <= i < j < keys.len() ==> lex_lt(#[trigger] K::order(keys[i]), #[trigger] K::order(keys[j]))
}

/// The keys are those of the map.
pub open spec fn lists<M, V>(keys: Seq<M>, map: Map<M, V>) -> bool {
    &&& forall|i: int| 0 <= i < keys.len() ==> map.contains_key(#[trigger] keys[i])
    &&& forall|m: M| #[trigger] map.contains_key(m) ==> keys.contains(m)
}

/// A map from keys to values that can be walked in the order of the keys.
#[derive(Debug)]
#[verifier::reject_recursive_types(K)]
#[verifier::reject_recursive_types(V)]
pub struct Table<K: Key, V: View> {
    rows: Vec<(K, V)>,
}

spec fn row_keys<K: Key, V: View>(rows: Seq<(K, V)>) -> Seq<K::Model> {
    Seq::new(rows.len(), |i: int| rows[i].0.model())
}

spec fn content<K: Key, V: View>(rows: Seq<(K, V)>) -> Map<K::Model, V::V> {
    Map::new(
        |m: K::Model| row_keys(rows).contains(m),
        |m: K::Model| rows[row_keys(rows).index_of(m)].1@,
    )
}

proof fn lemma_row<K: Key, V: View>(rows: Seq<(K, V)>, i: int)
    requires
        ascending::<K>(row_keys(rows)),
        0 <= i < rows.len(),
    ensures
        content(rows).contains_key(rows[i].0.model()),
        content(rows)[rows[i].0.model()] == rows[i].1@,
{
    let keys = row_keys(rows);
    let m = rows[i].0.model();
    assert(keys[i] == m);
    let j = keys.index_of(m);
    assert(0 <= j < keys.len() && keys[j] == m);
    if i != j {
        lex_irreflexive(K::order(m));
        if i < j {
            assert(lex_lt(K::order(keys[i]), K::order(keys[j])));
        } else {
            assert(lex_lt(K::order(keys[j]), K::order(keys[i])));
        }
    }
}

/// A key sorts behind all before `p` and ahead of all from `p` on.
spec fn fits<K: Key, V: View>(rows: Seq<(K, V)>, p: int, m: K::Model) -> bool {
    &&& 0 <= p <= rows.len()
    &&& forall|i: int| 0 <= i < p ==> lex_lt(K::order(#[trigger] rows[i].0.model()), K::order(m))
    &&& forall|i: int|
        p <= i < rows.len() ==> lex_lt(K::order(m), K::order(#[trigger] rows[i].0.model()))
}

proof fn lemma_inserted<K: Key, V: View>(rows: Seq<(K, V)>, p: int, k: K, v: V)
    requires
        ascending::<K>(row_keys(rows)),
        fits(rows, p, k.model()),
    ensures
        ascending::<K>(row_keys(rows.insert(p, (k, v)))),
        content(rows.insert(p, (k, v))) == content(rows).insert(k.model(), v@),
        row_keys(rows.insert(p, (k, v))) == row_keys(rows).insert(p, k.model()),
{
    let now = rows.insert(p, (k, v));
    let keys = row_keys(rows);
    let m = k.model();
    assert(row_keys(now) =~= keys.insert(p, m));
    assert forall|i: int, j: int| 0 <= i < j < now.len() implies lex_lt(
        #[trigger] K::order(row_keys(now)[i]),
        #[trigger] K::order(row_keys(now)[j]),
    ) by {
        let a = if i < p { i } else { i - 1 };
        let b = if j < p { j } else { j - 1 };
        if i == p {
            assert(lex_lt(K::order(m), K::order(rows[b].0.model())));
        } else if j == p {
            assert(lex_lt(K::order(rows[a].0.model()), K::order(m)));
        } else {
            assert(lex_lt(K::order(keys[a]), K::order(keys[b])));
        }
    }
    let (was, is) = (content(rows), content(now));
    assert forall|x: K::Model| is.contains_key(x) == was.insert(m, v@).contains_key(x) by {
        if row_keys(now).contains(x) {
            let i = row_keys(now).index_of(x);
            if i != p {
                let a = if i < p { i } else { i - 1 };
                assert(keys[a] == x);
            }
        }
        if keys.contains(x) {
            let a = keys.index_of(x);
            let i = if a < p { a } else { a + 1 };
            assert(row_keys(now)[i] == x);
        }
        assert(row_keys(now)[p] == m);
    }
    assert forall|x: K::Model| is.contains_key(x) implies is[x] == was.insert(m, v@)[x] by {
        let i = row_keys(now).index_of(x);
        assert(row_keys(now)[i] == x);
        lemma_row(now, i);
        if i == p {
            assert(x == m);
        } else {
            let a = if i < p { i } else { i - 1 };
            lemma_row(rows, a);
            assert(now[i] == rows[a]);
            if x == m {
                lex_irreflexive(K::order(m));
            }
        }
    }
    assert(is =~= was.insert(m, v@));
}

proof fn lemma_removed<K: Key, V: View>(rows: Seq<(K, V)>, p: int)
    requires
        ascending::<K>(row_keys(rows)),
        0 <= p < rows.len(),
    ensures
        ascending::<K>(row_keys(rows.remove(p))),
        content(rows.remove(p)) == content(rows).remove(rows[p].0.model()),
        fits(rows.remove(p), p, rows[p].0.model()),
{
    let now = rows.remove(p);
    let keys = row_keys(rows);
    let m = rows[p].0.model();
    assert(row_keys(now) =~= keys.remove(p));
    assert forall|i: int, j: int| 0 <= i < j < now.len() implies lex_lt(
        #[trigger] K::order(row_keys(now)[i]),
        #[trigger] K::order(row_keys(now)[j]),
    ) by {
        let a = if i < p { i } else { i + 1 };
        let b = if j < p { j } else { j + 1 };
        assert(lex_lt(K::order(keys[a]), K::order(keys[b])));
    }
    assert forall|i: int| 0 <= i < p implies lex_lt(
        K::order(#[trigger] now[i].0.model()),
        K::order(m),
    ) by {
        assert(lex_lt(K::order(keys[i]), K::order(keys[p])));
    }
    assert forall|i: int| p <= i < now.len() implies lex_lt(
        K::order(m),
        K::order(#[trigger] now[i].0.model()),
    ) by {
        assert(lex_lt(K::order(keys[p]), K::order(keys[i + 1])));
    }
    let (was, is) = (content(rows), content(now));
    assert forall|x: K::Model| is.contains_key(x) == was.remove(m).contains_key(x) by {
        lex_irreflexive(K::order(m));
        if row_keys(now).contains(x) {
            let i = row_keys(now).index_of(x);
            let a = if i < p { i } else { i + 1 };
            assert(keys[a] == x);
            assert(now[i].0.model() == x);
        }
        if keys.contains(x) && x != m {
            let a = keys.index_of(x);
            let i = if a < p { a } else { a - 1 };
            assert(row_keys(now)[i] == x);
        }
    }
    assert forall|x: K::Model| is.contains_key(x) implies is[x] == was.remove(m)[x] by {
        let i = row_keys(now).index_of(x);
        assert(row_keys(now)[i] == x);
        lemma_row(now, i);
        let a = if i < p { i } else { i + 1 };
        lemma_row(rows, a);
        assert(now[i] == rows[a]);
    }
    assert(is =~= was.remove(m));
}

impl<K: Key, V: View> View for Table<K, V> {
    type V = Map<K::Model, V::V>;

    closed spec fn view(&self) -> Map<K::Model, V::V> {
        content(self.rows@)
    }
}

impl<K: Key, V: View> Table<K, V> {
    #[verifier::type_invariant]
    spec fn in_order(self) -> bool {
        ascending::<K>(row_keys(self.rows@))
    }

    /// The keys, in order.
    pub closed spec fn keys(self) -> Seq<K::Model> {
        row_keys(self.rows@)
    }

    pub fn new() -> (r: Table<K, V>)
        ensures
            r@ == Map::<K::Model, V::V>::empty(),
            r.keys() == Seq::<K::Model>::empty(),
    {
        let r = Table { rows: Vec::new() };
        assert(row_keys(r.rows@) =~= Seq::empty());
        assert(r@ =~= Map::empty());
        r
    }

    pub fn len(&self) -> (r: usize)
        ensures
            r == self.keys().len(),
            ascending::<K>(self.keys()),
            lists(self.keys(), self@),
    {
        proof {
            use_type_invariant(self);
        }
        self.rows.len()
    }

    pub fn key_at(&self, i: usize) -> (r: &K)
        requires
            i < self.keys().len(),
        ensures
            r.model() == self.keys()[i as int],
    {
        &self.rows[i].0
    }

    pub fn value_at(&self, i: usize) -> (r: &V)
        requires
            i < self.keys().len(),
        ensures
            self@.contains_key(self.keys()[i as int]),
            r@ == self@[self.keys()[i as int]],
    {
        proof {
            use_type_invariant(self);
            lemma_row(self.rows@, i as int);
        }
        &self.rows[i].1
    }

    /// Where a key stands, or would stand.
    fn position(&self, key: &K) -> (r: (usize, bool))
        ensures
            ascending::<K>(row_keys(self.rows@)),
            r.0 <= self.rows@.len(),
            r.1 ==> r.0 < self.rows@.len() && self.rows@[r.0 as int].0.model() == key.model(),
            !r.1 ==> fits(self.rows@, r.0 as int, key.model()) && !self@.contains_key(key.model()),
    {
        proof {
            use_type_invariant(self);
        }
        let ghost rows = self.rows@;
        let ghost m = key.model();
        let mut i: usize = 0;
        while i < self.rows.len() && self.rows[i].0.before(key)
            invariant
                i <= rows.len(),
                rows == self.rows@,
                m == key.model(),
                forall|k: int| 0 <= k < i ==> lex_lt(K::order(#[trigger] rows[k].0.model()), K::order(m)),
            decreases rows.len() - i,
        {
            i = i + 1;
        }
        if i < self.rows.len() && self.rows[i].0.same(key) {
            return (i, true);
        }
        proof {
            if i < rows.len() {
                let here = K::order(rows[i as int].0.model());
                lex_total(here, K::order(m));
                if here == K::order(m) {
                    K::order_tells_apart(rows[i as int].0.model(), m);
                }
                assert forall|k: int| i <= k < rows.len() implies lex_lt(
                    K::order(m),
                    K::order(#[trigger] rows[k].0.model()),
                ) by {
                    if k > i {
                        assert(lex_lt(K::order(row_keys(rows)[i as int]), K::order(row_keys(rows)[k])));
                        lex_transitive(K::order(m), here, K::order(rows[k].0.model()));
                    }
                }
            }
            if row_keys(rows).contains(m) {
                let k = row_keys(rows).index_of(m);
                assert(rows[k].0.model() == m);
                lex_irreflexive(K::order(m));
            }
        }
        (i, false)
    }

    pub fn get(&self, key: &K) -> (r: Option<&V>)
        ensures
            match r {
                Some(v) => self@.contains_key(key.model()) && v@ == self@[key.model()],
                None => !self@.contains_key(key.model()),
            },
    {
        let (i, found) = self.position(key);
        if found {
            proof {
                lemma_row(self.rows@, i as int);
            }
            Some(&self.rows[i].1)
        } else {
            None
        }
    }

    pub fn contains_key(&self, key: &K) -> (r: bool)
        ensures
            r == self@.contains_key(key.model()),
    {
        self.get(key).is_some()
    }

    pub fn insert(&mut self, key: K, value: V)
        ensures
            final(self)@ == old(self)@.insert(key.model(), value@),
    {
        let (i, found) = self.position(&key);
        let mut rows: Vec<(K, V)> = Vec::new();
        proof {
            assert(row_keys(rows@) =~= Seq::empty());
        }
        std::mem::swap(&mut rows, &mut self.rows);
        let ghost was = rows@;
        if found {
            proof {
                lemma_removed(was, i as int);
            }
            rows.remove(i);
        }
        let ghost without = rows@;
        proof {
            lemma_inserted(without, i as int, key, value);
            assert(content(was).remove(key.model()).insert(key.model(), value@)
                =~= content(was).insert(key.model(), value@));
        }
        rows.insert(i, (key, value));
        self.rows = rows;
    }

    pub fn remove(&mut self, key: &K) -> (r: Option<V>)
        ensures
            match r {
                Some(v) => old(self)@.contains_key(key.model()) && v@ == old(self)@[key.model()]
                    && final(self)@ == old(self)@.remove(key.model()),
                None => !old(self)@.contains_key(key.model()) && final(self)@ == old(self)@,
            },
    {
        let (i, found) = self.position(key);
        if !found {
            return None;
        }
        let mut rows: Vec<(K, V)> = Vec::new();
        proof {
            assert(row_keys(rows@) =~= Seq::empty());
        }
        std::mem::swap(&mut rows, &mut self.rows);
        proof {
            lemma_row(rows@, i as int);
            lemma_removed(rows@, i as int);
        }
        let row = rows.remove(i);
        self.rows = rows;
        Some(row.1)
    }
}

} // verus!
