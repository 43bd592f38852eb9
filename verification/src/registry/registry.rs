//! The registry: a metadata store and what is asked of it.
use vstd::prelude::*;
use vstd::utf8::*;

use crate::bytes::after;
use crate::digest::Digest;
use crate::keys::{
    digest_key, manifest, parse_repo_id, repo_by_id, repo_by_name, repo_bytes,
    repo_bytes_round_trip, repo_head, repo_name_key, repo_of_bytes, PREFIX_MANIFEST,
    PREFIX_REPO_BY_ID,
};
use crate::meta::engine::{
    applied, bytes_view, is_page, listing, lookup, ordered, page_entries, slice_view, table, Entry,
    MetaEngine, Page, WriteBatch,
};
use crate::registry::codec::{decode_manifest, manifest_of};
use crate::registry::error::{answers, corrupt, seen, Fault, RegistryError, Result};
use crate::registry::suffix::{lemma_text_at, text_at};
use crate::text::utf8_text;
use crate::types::{ManifestRecord, ManifestView, RepoId};

verus! {

/// A change worked out and not yet made.
#[derive(Debug)]
pub struct Planned<T> {
    pub outcome: T,
    pub batch: WriteBatch,
}

/// The registry over a metadata store.
pub struct Registry<E: MetaEngine> {
    engine: E,
}

// --- what is asked of the store ---------------------------------------------

/// The part of a listing that a page shows.
pub open spec fn shown(list: Seq<Entry>, limit: nat) -> Seq<Entry> {
    list.subrange(
        0,
        if list.len() <= limit {
            list.len() as int
        } else {
            limit as int
        },
    )
}

/// The key a page hands back to resume behind.
pub open spec fn cursor_key(list: Seq<Entry>, limit: nat) -> Option<Seq<u8>> {
    if 0 < limit < list.len() {
        Some(list[limit - 1].0)
    } else {
        None
    }
}

/// Each item read by `f`, or the first fault.
pub open spec fn collected<A, B>(
    s: Seq<A>,
    f: spec_fn(A) -> std::result::Result<B, Fault>,
) -> std::result::Result<Seq<B>, Fault>
    decreases s.len(),
{
    if s.len() == 0 {
        Ok(Seq::empty())
    } else {
        match collected(s.drop_last(), f) {
            Err(e) => Err(e),
            Ok(done) => match f(s.last()) {
                Ok(b) => Ok(done.push(b)),
                Err(e) => Err(e),
            },
        }
    }
}

/// One more item.
pub proof fn lemma_collected_step<A, B>(
    s: Seq<A>,
    f: spec_fn(A) -> std::result::Result<B, Fault>,
    i: int,
)
    requires
        0 <= i < s.len(),
    ensures
        collected(s.subrange(0, i + 1), f) == match collected(s.subrange(0, i), f) {
            Err(e) => Err(e),
            Ok(done) => match f(s[i]) {
                Ok(b) => Ok(done.push(b)),
                Err(e) => Err(e),
            },
        },
{
    assert(s.subrange(0, i + 1).drop_last() =~= s.subrange(0, i));
}

/// A fault among the first items is the fault of all.
pub proof fn lemma_collected_fault<A, B>(
    s: Seq<A>,
    f: spec_fn(A) -> std::result::Result<B, Fault>,
    n: int,
)
    requires
        0 <= n <= s.len(),
        collected(s.subrange(0, n), f) is Err,
    ensures
        collected(s, f) == collected(s.subrange(0, n), f),
    decreases s.len(),
{
    if n == s.len() {
        assert(s.subrange(0, n) =~= s);
    } else {
        assert(s.drop_last().subrange(0, n) =~= s.subrange(0, n));
        lemma_collected_fault(s.drop_last(), f, n);
    }
}

/// What is collected is each item read.
pub proof fn lemma_collected_each<A, B>(s: Seq<A>, f: spec_fn(A) -> std::result::Result<B, Fault>)
    ensures
        collected(s, f) matches Ok(out) ==> out.len() == s.len() && forall|i: int|
            0 <= i < s.len() ==> f(#[trigger] s[i]) == Ok::<B, Fault>(out[i]),
    decreases s.len(),
{
    if s.len() > 0 {
        lemma_collected_each(s.drop_last(), f);
        if let Ok(out) = collected(s, f) {
            let done = collected(s.drop_last(), f)->Ok_0;
            assert(out =~= done.push(f(s.last())->Ok_0));
            assert forall|i: int| 0 <= i < s.len() implies f(#[trigger] s[i]) == Ok::<B, Fault>(
                out[i],
            ) by {
                if i < s.len() - 1 {
                    assert(s.drop_last()[i] == s[i]);
                }
            }
        }
    }
}

/// The repo id a name stands for, if it stands for one.
pub open spec fn repo_lookup(es: Seq<Entry>, name: Seq<char>) -> std::result::Result<
    Option<RepoId>,
    Fault,
> {
    match lookup(es, repo_name_key(name)) {
        None => Ok(None),
        Some(b) => match repo_of_bytes(b) {
            Some(id) => Ok(Some(id)),
            None => Err(corrupt("repo id"@)),
        },
    }
}

/// The repo id a name must stand for.
pub open spec fn repo_required(es: Seq<Entry>, name: Seq<char>) -> std::result::Result<
    RepoId,
    Fault,
> {
    match repo_lookup(es, name) {
        Ok(Some(id)) => Ok(id),
        Ok(None) => Err(Fault::NameUnknown(name)),
        Err(e) => Err(e),
    }
}

/// The name a repo id stands for.
pub open spec fn repo_name_of(es: Seq<Entry>, id: RepoId) -> std::result::Result<Seq<char>, Fault> {
    match lookup(es, repo_head(PREFIX_REPO_BY_ID, id)) {
        Some(b) => match text_at(b, 0) {
            Some(name) => Ok(name),
            None => Err(corrupt("repo name"@)),
        },
        None => Err(corrupt("repo name"@)),
    }
}

/// The record of a manifest, if the repo has it.
pub open spec fn manifest_lookup(es: Seq<Entry>, repo: RepoId, digest: Digest) -> std::result::Result<
    Option<ManifestView>,
    Fault,
> {
    match lookup(es, digest_key(PREFIX_MANIFEST, repo, digest)) {
        None => Ok(None),
        Some(b) => match manifest_of(b) {
            Some(m) => Ok(Some(m)),
            None => Err(corrupt("ManifestRecord"@)),
        },
    }
}

/// A digest behind a reference.
pub open spec fn digest_view(d: Option<&Digest>) -> Option<Digest> {
    match d {
        Some(d) => Some(*d),
        None => None,
    }
}

/// A text behind a reference.
pub open spec fn text_view(s: Option<&str>) -> Option<Seq<char>> {
    match s {
        Some(s) => Some(s@),
        None => None,
    }
}

/// A cursor's bytes, where there is one.
pub(crate) fn as_bytes(cursor: &Option<Vec<u8>>) -> (r: Option<&[u8]>)
    ensures
        slice_view(r) == bytes_view(*cursor),
{
    match cursor {
        Some(k) => Some(k.as_slice()),
        None => None,
    }
}

impl<E: MetaEngine> Registry<E> {
    /// The store.
    pub closed spec fn store(&self) -> E {
        self.engine
    }

    /// What the store holds.
    pub open spec fn entries(&self) -> Seq<Entry> {
        self.store().entries()
    }

    /// The store is sound, and holds its entries in key order, each key once.
    pub open spec fn valid(&self) -> bool {
        self.store().valid() && ordered(self.store().entries())
    }

    /// The store answers every call.
    pub open spec fn reliable(&self) -> bool {
        self.store().reliable()
    }

    pub fn new(engine: E) -> (r: Self)
        ensures
            r.store() == engine,
    {
        Registry { engine }
    }

    pub fn engine(&self) -> (r: &E)
        ensures
            *r == self.store(),
    {
        &self.engine
    }

    /// Make a change.
    pub fn apply(&mut self, batch: &WriteBatch) -> (r: Result<()>)
        requires
            old(self).valid(),
        ensures
            final(self).valid(),
            final(self).reliable() == old(self).reliable(),
            match r {
                Ok(()) => table(final(self).entries()) == applied(
                    table(old(self).entries()),
                    batch@,
                ),
                Err(e) => e@ == Fault::Storage && !old(self).reliable() && final(self).entries()
                    == old(self).entries(),
            },
    {
        match self.engine.apply(batch) {
            Ok(()) => Ok(()),
            Err(e) => Err(RegistryError::Meta(e)),
        }
    }

    /// The value against a key.
    pub(crate) fn value(&self, key: &[u8]) -> (r: Result<Option<Vec<u8>>>)
        requires
            self.valid(),
        ensures
            match r {
                Ok(v) => bytes_view(v) == lookup(self.entries(), key@),
                Err(e) => e@ == Fault::Storage && !self.reliable(),
            },
    {
        match self.engine.get(key) {
            Ok(v) => Ok(v),
            Err(e) => Err(RegistryError::Meta(e)),
        }
    }

    /// One page of a listing.
    pub(crate) fn page(&self, prefix: &[u8], start_after: Option<&[u8]>, limit: usize) -> (r: Result<
        Page,
    >)
        requires
            self.valid(),
        ensures
            match r {
                Ok(page) => {
                    let list = listing(self.entries(), prefix@, slice_view(start_after));
                    &&& is_page(page, list, limit as nat)
                    &&& page_entries(page.entries@) == shown(list, limit as nat)
                    &&& bytes_view(page.next) == cursor_key(list, limit as nat)
                },
                Err(e) => e@ == Fault::Storage && !self.reliable(),
            },
    {
        match self.engine.scan(prefix, start_after, limit) {
            Ok(page) => Ok(page),
            Err(e) => Err(RegistryError::Meta(e)),
        }
    }

    /// The id of a repository, if it has been written to. A lookup never mints
    /// one.
    pub fn lookup_repo(&self, repo: &str) -> (r: Result<Option<RepoId>>)
        requires
            self.valid(),
        ensures
            answers(seen(r), repo_lookup(self.entries(), repo@), self.reliable()),
    {
        let key = repo_by_name(repo);
        match self.value(key.as_slice()) {
            Ok(Some(b)) => match parse_repo_id(b.as_slice()) {
                Some(id) => Ok(Some(id)),
                None => Err(RegistryError::corrupt("repo id")),
            },
            Ok(None) => Ok(None),
            Err(e) => Err(e),
        }
    }

    /// The id of a repository that must exist.
    pub fn require_repo(&self, repo: &str) -> (r: Result<RepoId>)
        requires
            self.valid(),
        ensures
            answers(seen(r), repo_required(self.entries(), repo@), self.reliable()),
    {
        match self.lookup_repo(repo) {
            Ok(Some(id)) => Ok(id),
            Ok(None) => Err(RegistryError::NameUnknown { repo: repo.to_owned() }),
            Err(e) => Err(e),
        }
    }

    /// The name a repo id stands for.
    pub fn repo_name(&self, id: RepoId) -> (r: Result<String>)
        requires
            self.valid(),
        ensures
            answers(seen(r), repo_name_of(self.entries(), id), self.reliable()),
    {
        let key = repo_by_id(id);
        match self.value(key.as_slice()) {
            Ok(Some(b)) => {
                proof {
                    assert(after(b@, 0) =~= b@);
                }
                match utf8_text(b.as_slice()) {
                    Some(name) => {
                        proof {
                            lemma_text_at(b@, 0, name@);
                        }
                        Ok(name.to_owned())
                    },
                    None => Err(RegistryError::corrupt("repo name")),
                }
            },
            Ok(None) => Err(RegistryError::corrupt("repo name")),
            Err(e) => Err(e),
        }
    }

    /// The record of a manifest, if the repo has it.
    pub fn manifest_record(&self, repo: RepoId, digest: &Digest) -> (r: Result<
        Option<ManifestRecord>,
    >)
        requires
            self.valid(),
        ensures
            answers(seen(r), manifest_lookup(self.entries(), repo, *digest), self.reliable()),
    {
        let key = manifest(repo, digest);
        match self.value(key.as_slice()) {
            Ok(Some(b)) => match decode_manifest(b.as_slice()) {
                Ok(m) => Ok(Some(m)),
                Err(e) => Err(e),
            },
            Ok(None) => Ok(None),
            Err(e) => Err(e),
        }
    }
}

/// A repository is found under its name where it is stored there, and under no other
/// name; what is not stored is unknown, and the name is told.
pub proof fn a_repository_is_found_by_its_name(es: Seq<Entry>, name: Seq<char>, id: RepoId)
    ensures
        lookup(es, repo_name_key(name)) == Some(repo_bytes(id)) ==> repo_required(es, name) == Ok::<
            RepoId,
            Fault,
        >(id),
        lookup(es, repo_name_key(name)) is None ==> repo_lookup(es, name) == Ok::<
            Option<RepoId>,
            Fault,
        >(None) && repo_required(es, name) == Err::<RepoId, Fault>(Fault::NameUnknown(name)),
        lookup(es, repo_head(PREFIX_REPO_BY_ID, id)) == Some(encode_utf8(name)) ==> repo_name_of(
            es,
            id,
        ) == Ok::<Seq<char>, Fault>(name),
{
    repo_bytes_round_trip(id);
    encode_utf8_valid_utf8(name);
    encode_utf8_decode_utf8(name);
    let b = encode_utf8(name);
    assert(b.subrange(0, b.len() as int) =~= b);
}

/// A page shows as many rows as were asked for, from the first on, or all there are. It
/// hands back the key of its last row exactly where there is more and it shows any.
pub proof fn a_page_is_the_beginning(list: Seq<Entry>, limit: nat, i: int)
    ensures
        list.len() <= limit ==> shown(list, limit) == list && cursor_key(list, limit) is None,
        limit < list.len() ==> shown(list, limit).len() == limit,
        0 <= i < shown(list, limit).len() ==> shown(list, limit)[i] == list[i],
        0 < limit < list.len() ==> cursor_key(list, limit) == Some(shown(list, limit).last().0),
        limit == 0 ==> cursor_key(list, limit) is None,
{
    if list.len() <= limit {
        assert(shown(list, limit) =~= list);
    }
}

} // verus!
