//! Discovery queries - the extension API's read side.
//!
//! Every query takes a cursor and a limit, including the two that look like
//! aggregates. There is no stored total for a repo's size or its manifest count,
//! deliberately: maintaining one would be a read-modify-write on the push path. A
//! caller that wants a total folds the pages, and a caller that wants a screenful
//! takes the first page.
use vstd::prelude::*;

use crate::bytes::has_prefix;
use crate::digest::Digest;
use crate::keys::{
    blob_ref, blob_ref_key, blob_refs, blob_refs_key, blobs_in_repo, child_parent, digest_key,
    edge_key, manifest, manifests_in_repo, parents_of, parse_repo_name, parse_tag_suffix, repo_blob,
    repo_by_name, repo_head, repo_name_key, tag, tag_key, tags_in_repo, tags_of_manifest,
    PREFIX_CHILD_PARENT, PREFIX_MANIFEST, PREFIX_MANIFEST_TAG, PREFIX_REPO_BLOB,
    PREFIX_REPO_BY_NAME, PREFIX_TAG,
};
use crate::meta::engine::{
    bytes_view, has_key_under, in_range, lemma_listing, listing, page_entries, Entry, MetaEngine,
};
use crate::registry::codec::{decode_manifest, decode_repo_blob, manifest_of, number_pair_wire};
use crate::registry::error::{answers, corrupt, seen, Fault, RegistryError, Result};
use crate::registry::registry::{
    as_bytes, collected, cursor_key, digest_view, lemma_collected_each, lemma_collected_fault,
    lemma_collected_step, repo_lookup, repo_name_of, repo_required, shown, text_view, Registry,
};
use crate::registry::suffix::{
    blob_ref_target, blob_ref_target_of, digest_after_repo, digest_at, lemma_text_at,
    second_digest_after_repo, second_digest_of, text_at,
};
use crate::types::{ManifestRecord, ManifestView, RepoId};

verus! {

#[derive(Debug, Clone, PartialEq, Eq)]
pub struct RepoList {
    pub repos: Vec<String>,
    pub next: Option<String>,
}

#[derive(Debug, Clone, PartialEq, Eq)]
pub struct ManifestList {
    pub manifests: Vec<ManifestRecord>,
    pub next: Option<Digest>,
}

#[derive(Debug, Clone, PartialEq, Eq)]
pub struct DigestList {
    pub digests: Vec<Digest>,
    pub next: Option<Digest>,
}

/// One page of a repo's blob set. Fold `blobs` and `bytes` across pages for a
/// total; there is no stored aggregate to read instead.
#[derive(Debug, Clone, PartialEq, Eq)]
pub struct RepoUsagePage {
    pub blobs: u64,
    pub bytes: u64,
    pub next: Option<Digest>,
}

#[derive(Debug, Clone, PartialEq, Eq)]
pub struct ManifestCountPage {
    pub manifests: u64,
    pub next: Option<Digest>,
}

#[derive(Debug, Clone, PartialEq, Eq)]
pub struct TagCountPage {
    pub tags: u64,
    pub next: Option<String>,
}

/// A manifest that references a blob, and the repo it lives in.
#[derive(Debug, Clone, PartialEq, Eq)]
pub struct BlobReference {
    pub repo: String,
    pub manifest: Digest,
}

#[derive(Debug, Clone, PartialEq, Eq)]
pub struct BlobReferenceList {
    pub references: Vec<BlobReference>,
    pub next: Option<BlobReference>,
}

impl DeepView for RepoList {
    type V = (Seq<Seq<char>>, Option<Seq<char>>);

    open spec fn deep_view(&self) -> Self::V {
        (self.repos.deep_view(), self.next.deep_view())
    }
}

impl DeepView for ManifestList {
    type V = (Seq<ManifestView>, Option<Digest>);

    open spec fn deep_view(&self) -> Self::V {
        (self.manifests.deep_view(), self.next)
    }
}

impl DeepView for DigestList {
    type V = (Seq<Digest>, Option<Digest>);

    open spec fn deep_view(&self) -> Self::V {
        (self.digests@, self.next)
    }
}

impl DeepView for RepoUsagePage {
    type V = (u64, u64, Option<Digest>);

    open spec fn deep_view(&self) -> Self::V {
        (self.blobs, self.bytes, self.next)
    }
}

impl DeepView for ManifestCountPage {
    type V = (u64, Option<Digest>);

    open spec fn deep_view(&self) -> Self::V {
        (self.manifests, self.next)
    }
}

impl DeepView for TagCountPage {
    type V = (u64, Option<Seq<char>>);

    open spec fn deep_view(&self) -> Self::V {
        (self.tags, self.next.deep_view())
    }
}

impl DeepView for BlobReference {
    type V = (Seq<char>, Digest);

    open spec fn deep_view(&self) -> Self::V {
        (self.repo@, self.manifest)
    }
}

impl DeepView for BlobReferenceList {
    type V = (Seq<(Seq<char>, Digest)>, Option<(Seq<char>, Digest)>);

    open spec fn deep_view(&self) -> Self::V {
        (self.references.deep_view(), self.next.deep_view())
    }
}

// --- what each query answers ------------------------------------------------

/// The name that a repository's key holds.
pub open spec fn name_in(e: Entry) -> std::result::Result<Seq<char>, Fault> {
    match text_at(e.0, 1) {
        Some(name) => Ok(name),
        None => Err(corrupt("repo name key"@)),
    }
}

/// The digest that a cursor key holds.
pub open spec fn digest_cursor(key: Option<Seq<u8>>, what: Seq<char>) -> std::result::Result<
    Option<Digest>,
    Fault,
> {
    match key {
        Some(k) => match digest_at(k, 5) {
            Some(d) => Ok(Some(d)),
            None => Err(corrupt(what)),
        },
        None => Ok(None),
    }
}

/// Repositories whose name begins with `prefix`, behind `start_after`.
pub open spec fn repos_listed(
    es: Seq<Entry>,
    prefix: Seq<char>,
    start_after: Option<Seq<char>>,
) -> Seq<Entry> {
    listing(
        es,
        repo_name_key(prefix),
        match start_after {
            Some(s) => Some(repo_name_key(s)),
            None => None,
        },
    )
}

pub open spec fn search_repos_answer(
    es: Seq<Entry>,
    prefix: Seq<char>,
    start_after: Option<Seq<char>>,
    limit: nat,
) -> std::result::Result<(Seq<Seq<char>>, Option<Seq<char>>), Fault> {
    let list = repos_listed(es, prefix, start_after);
    match collected(shown(list, limit), |e: Entry| name_in(e)) {
        Ok(names) => Ok(
            (
                names,
                if 0 < limit < list.len() {
                    Some(names.last())
                } else {
                    None
                },
            ),
        ),
        Err(e) => Err(e),
    }
}

/// What a repo holds of one kind, keyed by digest, behind `start_after`.
pub open spec fn digests_listed(
    es: Seq<Entry>,
    prefix: u8,
    repo: RepoId,
    start_after: Option<Digest>,
) -> Seq<Entry> {
    listing(
        es,
        repo_head(prefix, repo),
        match start_after {
            Some(d) => Some(digest_key(prefix, repo, d)),
            None => None,
        },
    )
}

/// The record that an entry holds.
pub open spec fn manifest_in(e: Entry) -> std::result::Result<ManifestView, Fault> {
    match manifest_of(e.1) {
        Some(m) => Ok(m),
        None => Err(corrupt("ManifestRecord"@)),
    }
}

pub open spec fn list_manifests_answer(
    es: Seq<Entry>,
    repo: Seq<char>,
    start_after: Option<Digest>,
    limit: nat,
) -> std::result::Result<(Seq<ManifestView>, Option<Digest>), Fault> {
    match repo_required(es, repo) {
        Err(e) => Err(e),
        Ok(id) => {
            let list = digests_listed(es, PREFIX_MANIFEST, id, start_after);
            match collected(shown(list, limit), |e: Entry| manifest_in(e)) {
                Err(e) => Err(e),
                Ok(ms) => match digest_cursor(cursor_key(list, limit), "manifest cursor"@) {
                    Err(e) => Err(e),
                    Ok(next) => Ok((ms, next)),
                },
            }
        },
    }
}

/// The digest that a manifest's key holds.
pub open spec fn manifest_key_in(e: Entry) -> std::result::Result<Digest, Fault> {
    match digest_at(e.0, 5) {
        Some(d) => Ok(d),
        None => Err(corrupt("manifest key"@)),
    }
}

/// No tag points at the manifest.
pub open spec fn is_untagged(es: Seq<Entry>, repo: RepoId, d: Digest) -> bool {
    !has_key_under(es, digest_key(PREFIX_MANIFEST_TAG, repo, d))
}

pub open spec fn untagged_manifests_answer(
    es: Seq<Entry>,
    repo: Seq<char>,
    start_after: Option<Digest>,
    limit: nat,
) -> std::result::Result<(Seq<Digest>, Option<Digest>), Fault> {
    match repo_required(es, repo) {
        Err(e) => Err(e),
        Ok(id) => {
            let list = digests_listed(es, PREFIX_MANIFEST, id, start_after);
            match collected(shown(list, limit), |e: Entry| manifest_key_in(e)) {
                Err(e) => Err(e),
                Ok(ds) => match digest_cursor(cursor_key(list, limit), "manifest cursor"@) {
                    Err(e) => Err(e),
                    Ok(next) => Ok((ds.filter(|d: Digest| is_untagged(es, id, d)), next)),
                },
            }
        },
    }
}

/// The size that a blob's membership record holds.
pub open spec fn blob_size_in(e: Entry) -> std::result::Result<u64, Fault> {
    match number_pair_wire(e.1) {
        Some((size, _)) => Ok(size),
        None => Err(corrupt("RepoBlobRecord"@)),
    }
}

/// The sum of some sizes, as 64 bits hold it.
pub open spec fn wrapped_sum(sizes: Seq<u64>) -> u64
    decreases sizes.len(),
{
    if sizes.len() == 0 {
        0
    } else {
        ((wrapped_sum(sizes.drop_last()) + sizes.last()) % 0x1_0000_0000_0000_0000) as u64
    }
}

pub open spec fn repo_usage_answer(
    es: Seq<Entry>,
    repo: Seq<char>,
    start_after: Option<Digest>,
    limit: nat,
) -> std::result::Result<(u64, u64, Option<Digest>), Fault> {
    match repo_required(es, repo) {
        Err(e) => Err(e),
        Ok(id) => {
            let list = digests_listed(es, PREFIX_REPO_BLOB, id, start_after);
            match digest_cursor(cursor_key(list, limit), "repo blob cursor"@) {
                Err(e) => Err(e),
                Ok(next) => match collected(shown(list, limit), |e: Entry| blob_size_in(e)) {
                    Err(e) => Err(e),
                    Ok(sizes) => Ok((sizes.len() as u64, wrapped_sum(sizes), next)),
                },
            }
        },
    }
}

pub open spec fn count_manifests_answer(
    es: Seq<Entry>,
    repo: Seq<char>,
    start_after: Option<Digest>,
    limit: nat,
) -> std::result::Result<(u64, Option<Digest>), Fault> {
    match repo_required(es, repo) {
        Err(e) => Err(e),
        Ok(id) => {
            let list = digests_listed(es, PREFIX_MANIFEST, id, start_after);
            match digest_cursor(cursor_key(list, limit), "manifest cursor"@) {
                Err(e) => Err(e),
                Ok(next) => Ok((shown(list, limit).len() as u64, next)),
            }
        },
    }
}

/// A repo's tags behind `start_after`.
pub open spec fn tags_listed(es: Seq<Entry>, repo: RepoId, start_after: Option<Seq<char>>) -> Seq<
    Entry,
> {
    listing(
        es,
        repo_head(PREFIX_TAG, repo),
        match start_after {
            Some(t) => Some(tag_key(repo, t)),
            None => None,
        },
    )
}

pub open spec fn count_tags_answer(
    es: Seq<Entry>,
    repo: Seq<char>,
    start_after: Option<Seq<char>>,
    limit: nat,
) -> std::result::Result<(u64, Option<Seq<char>>), Fault> {
    match repo_required(es, repo) {
        Err(e) => Err(e),
        Ok(id) => {
            let list = tags_listed(es, id, start_after);
            match cursor_key(list, limit) {
                None => Ok((shown(list, limit).len() as u64, None)),
                Some(k) => match text_at(k, 5) {
                    Some(t) => Ok((shown(list, limit).len() as u64, Some(t))),
                    None => Err(corrupt("tag cursor"@)),
                },
            }
        },
    }
}

/// The repository and manifest that a reference edge names.
pub open spec fn reference_in(es: Seq<Entry>, key: Seq<u8>) -> std::result::Result<
    (Seq<char>, Digest),
    Fault,
> {
    match blob_ref_target_of(key) {
        None => Err(corrupt("blob ref key"@)),
        Some((id, m)) => match repo_name_of(es, id) {
            Ok(name) => Ok((name, m)),
            Err(e) => Err(e),
        },
    }
}

/// Where a listing of references resumes. A cursor naming a repository that no
/// longer exists cannot be positioned, so the scan restarts.
pub open spec fn reference_cursor(
    es: Seq<Entry>,
    blob: Digest,
    start_after: Option<(Seq<char>, Digest)>,
) -> std::result::Result<Option<Seq<u8>>, Fault> {
    match start_after {
        None => Ok(None),
        Some((name, m)) => match repo_lookup(es, name) {
            Err(e) => Err(e),
            Ok(None) => Ok(None),
            Ok(Some(id)) => Ok(Some(blob_ref_key(blob, id, m))),
        },
    }
}

pub open spec fn manifests_referencing_blob_answer(
    es: Seq<Entry>,
    blob: Digest,
    start_after: Option<(Seq<char>, Digest)>,
    limit: nat,
) -> std::result::Result<(Seq<(Seq<char>, Digest)>, Option<(Seq<char>, Digest)>), Fault> {
    match reference_cursor(es, blob, start_after) {
        Err(e) => Err(e),
        Ok(cursor) => {
            let list = listing(es, blob_refs_key(blob), cursor);
            match collected(shown(list, limit), |e: Entry| reference_in(es, e.0)) {
                Err(e) => Err(e),
                Ok(rs) => Ok(
                    (
                        rs,
                        if 0 < limit < list.len() {
                            Some(rs.last())
                        } else {
                            None
                        },
                    ),
                ),
            }
        },
    }
}

/// The parent that an edge names.
pub open spec fn parent_in(e: Entry) -> std::result::Result<Digest, Fault> {
    match second_digest_of(e.0) {
        Some(d) => Ok(d),
        None => Err(corrupt("child-parent key"@)),
    }
}

/// The edges from one digest of a repo, behind `start_after`.
pub open spec fn edges_listed(
    es: Seq<Entry>,
    prefix: u8,
    repo: RepoId,
    from: Digest,
    start_after: Option<Digest>,
) -> Seq<Entry> {
    listing(
        es,
        digest_key(prefix, repo, from),
        match start_after {
            Some(d) => Some(edge_key(prefix, repo, from, d)),
            None => None,
        },
    )
}

pub open spec fn parents_of_manifest_answer(
    es: Seq<Entry>,
    repo: Seq<char>,
    child: Digest,
    start_after: Option<Digest>,
    limit: nat,
) -> std::result::Result<(Seq<Digest>, Option<Digest>), Fault> {
    match repo_required(es, repo) {
        Err(e) => Err(e),
        Ok(id) => {
            let list = edges_listed(es, PREFIX_CHILD_PARENT, id, child, start_after);
            match collected(shown(list, limit), |e: Entry| parent_in(e)) {
                Err(e) => Err(e),
                Ok(ds) => Ok(
                    (
                        ds,
                        if 0 < limit < list.len() {
                            Some(ds.last())
                        } else {
                            None
                        },
                    ),
                ),
            }
        },
    }
}

// --- the queries --------------------------------------------------------------

impl<E: MetaEngine> Registry<E> {
    /// Every repository, in name order.
    ///
    /// Pages over `n <name>`, never over `i <id>`: `n` is name-ordered and `i` is
    /// insertion-ordered, and any stable cursor needs the former.
    pub fn list_repos(&self, start_after: Option<&str>, limit: usize) -> (r: Result<RepoList>)
        requires
            self.valid(),
        ensures
            answers(
                seen(r),
                search_repos_answer(
                    self.entries(),
                    Seq::empty(),
                    text_view(start_after),
                    limit as nat,
                ),
                self.reliable(),
            ),
    {
        proof {
            reveal_strlit("");
            assert(""@ =~= Seq::<char>::empty());
        }
        self.search_repos("", start_after, limit)
    }

    /// Repositories whose name begins with `prefix`, in name order.
    ///
    /// `n <name>` is the name itself appended to one type byte, so a name prefix
    /// *is* a key prefix, and the search costs one seek and a sequential walk of
    /// exactly the matching run.
    #[verifier::loop_isolation(false)]
    pub fn search_repos(&self, prefix: &str, start_after: Option<&str>, limit: usize) -> (r: Result<
        RepoList,
    >)
        requires
            self.valid(),
        ensures
            answers(
                seen(r),
                search_repos_answer(
                    self.entries(),
                    prefix@,
                    text_view(start_after),
                    limit as nat,
                ),
                self.reliable(),
            ),
    {
        let scope = repo_by_name(prefix);
        let cursor = match start_after {
            Some(s) => Some(repo_by_name(s)),
            None => None,
        };
        let page = match self.page(scope.as_slice(), as_bytes(&cursor), limit) {
            Ok(page) => page,
            Err(e) => return Err(e),
        };
        let ghost es = self.entries();
        let ghost list = repos_listed(es, prefix@, text_view(start_after));
        let ghost rows = page_entries(page.entries@);
        let ghost read = |e: Entry| name_in(e);
        proof {
            lemma_listing(es, repo_name_key(prefix@), bytes_view(cursor));
            assert(scope@[0] == PREFIX_REPO_BY_NAME);
        }
        let mut repos: Vec<String> = Vec::new();
        proof {
            assert(repos.deep_view() =~= Seq::empty());
            assert(rows.subrange(0, 0) =~= Seq::empty());
        }
        let mut i: usize = 0;
        while i < page.entries.len()
            invariant
                i <= page.entries@.len(),
                collected(rows.subrange(0, i as int), read) == Ok::<Seq<Seq<char>>, Fault>(
                    repos.deep_view(),
                ),
            decreases page.entries@.len() - i,
        {
            let key = page.entries[i].0.as_slice();
            proof {
                assert(rows[i as int].0 == key@);
                assert(list[i as int] == rows[i as int]);
                assert(has_prefix(list[i as int].0, scope@));
                assert(key@.subrange(0, scope@.len() as int)[0] == scope@[0]);
                lemma_collected_step(rows, read, i as int);
            }
            match parse_repo_name(key) {
                Some(name) => {
                    proof {
                        lemma_text_at(key@, 1, name@);
                    }
                    let ghost before = repos.deep_view();
                    repos.push(name.to_owned());
                    assert(repos.deep_view() =~= before.push(name@));
                },
                None => {
                    proof {
                        lemma_collected_fault(rows, read, i + 1);
                    }
                    return Err(RegistryError::corrupt("repo name key"));
                },
            }
            i += 1;
        }
        proof {
            assert(rows.subrange(0, i as int) =~= rows);
            lemma_collected_each(rows, read);
        }
        let n: usize = repos.len();
        let next = match &page.next {
            Some(_) => {
                assert(repos.deep_view().last() == repos@[n - 1]@);
                Some(repos[n - 1].clone())
            },
            None => None,
        };
        Ok(RepoList { repos, next })
    }

    /// Every manifest in a repo, in digest order.
    #[verifier::loop_isolation(false)]
    pub fn list_manifests(&self, repo: &str, start_after: Option<&Digest>, limit: usize) -> (r: Result<
        ManifestList,
    >)
        requires
            self.valid(),
        ensures
            answers(
                seen(r),
                list_manifests_answer(
                    self.entries(),
                    repo@,
                    digest_view(start_after),
                    limit as nat,
                ),
                self.reliable(),
            ),
    {
        let id = match self.require_repo(repo) {
            Ok(id) => id,
            Err(e) => return Err(e),
        };
        let scope = manifests_in_repo(id);
        let cursor = match start_after {
            Some(d) => Some(manifest(id, d)),
            None => None,
        };
        let page = match self.page(scope.as_slice(), as_bytes(&cursor), limit) {
            Ok(page) => page,
            Err(e) => return Err(e),
        };
        let ghost es = self.entries();
        let ghost list = digests_listed(es, PREFIX_MANIFEST, id, digest_view(start_after));
        let ghost rows = page_entries(page.entries@);
        let ghost read = |e: Entry| manifest_in(e);
        let mut manifests: Vec<ManifestRecord> = Vec::new();
        proof {
            assert(manifests.deep_view() =~= Seq::empty());
            assert(rows.subrange(0, 0) =~= Seq::empty());
        }
        let mut i: usize = 0;
        while i < page.entries.len()
            invariant
                i <= page.entries@.len(),
                collected(rows.subrange(0, i as int), read) == Ok::<Seq<ManifestView>, Fault>(
                    manifests.deep_view(),
                ),
            decreases page.entries@.len() - i,
        {
            proof {
                assert(rows[i as int].1 == page.entries@[i as int].1@);
                lemma_collected_step(rows, read, i as int);
            }
            match decode_manifest(page.entries[i].1.as_slice()) {
                Ok(m) => {
                    let ghost before = manifests.deep_view();
                    manifests.push(m);
                    assert(manifests.deep_view() =~= before.push(m.deep_view()));
                },
                Err(e) => {
                    proof {
                        lemma_collected_fault(rows, read, i + 1);
                    }
                    return Err(e);
                },
            }
            i += 1;
        }
        proof {
            assert(rows.subrange(0, i as int) =~= rows);
        }
        match cursor_digest(&page.next, "manifest cursor") {
            Ok(next) => Ok(ManifestList { manifests, next }),
            Err(e) => Err(e),
        }
    }

    /// Manifests in a repo with no tag pointing at them - the reclaimable set.
    ///
    /// One prefix-existence check per manifest, which is a seek rather than a
    /// scan. The cursor advances over the manifests rather than over the results,
    /// so a page may come back short with `next` still set.
    #[verifier::loop_isolation(false)]
    pub fn untagged_manifests(
        &self,
        repo: &str,
        start_after: Option<&Digest>,
        limit: usize,
    ) -> (r: Result<DigestList>)
        requires
            self.valid(),
        ensures
            answers(
                seen(r),
                untagged_manifests_answer(
                    self.entries(),
                    repo@,
                    digest_view(start_after),
                    limit as nat,
                ),
                self.reliable(),
            ),
    {
        let id = match self.require_repo(repo) {
            Ok(id) => id,
            Err(e) => return Err(e),
        };
        let scope = manifests_in_repo(id);
        let cursor = match start_after {
            Some(d) => Some(manifest(id, d)),
            None => None,
        };
        let page = match self.page(scope.as_slice(), as_bytes(&cursor), limit) {
            Ok(page) => page,
            Err(e) => return Err(e),
        };
        let ghost es = self.entries();
        let ghost list = digests_listed(es, PREFIX_MANIFEST, id, digest_view(start_after));
        let ghost rows = page_entries(page.entries@);
        let ghost read = |e: Entry| manifest_key_in(e);
        let ghost untagged = |d: Digest| is_untagged(es, id, d);
        let mut digests: Vec<Digest> = Vec::new();
        let ghost mut all: Seq<Digest> = Seq::empty();
        proof {
            reveal(Seq::filter);
            assert(digests@ =~= all.filter(untagged));
            assert(rows.subrange(0, 0) =~= Seq::empty());
        }
        let mut i: usize = 0;
        while i < page.entries.len()
            invariant
                i <= page.entries@.len(),
                collected(rows.subrange(0, i as int), read) == Ok::<Seq<Digest>, Fault>(all),
                digests@ == all.filter(untagged),
            decreases page.entries@.len() - i,
        {
            proof {
                assert(rows[i as int].0 == page.entries@[i as int].0@);
                lemma_collected_step(rows, read, i as int);
                reveal(Seq::filter);
            }
            match digest_after_repo(page.entries[i].0.as_slice()) {
                Some(digest) => {
                    proof {
                        assert(all.push(digest).drop_last() =~= all);
                        all = all.push(digest);
                    }
                    let tags = tags_of_manifest(id, &digest);
                    match self.engine().exists_prefix(tags.as_slice()) {
                        Ok(true) => {},
                        Ok(false) => digests.push(digest),
                        Err(e) => return Err(RegistryError::Meta(e)),
                    }
                },
                None => {
                    proof {
                        lemma_collected_fault(rows, read, i + 1);
                    }
                    return Err(RegistryError::corrupt("manifest key"));
                },
            }
            i += 1;
        }
        proof {
            assert(rows.subrange(0, i as int) =~= rows);
        }
        match cursor_digest(&page.next, "manifest cursor") {
            Ok(next) => Ok(DigestList { digests, next }),
            Err(e) => Err(e),
        }
    }

    /// Blob count and byte total for a repo, one page of its blob set at a time.
    #[verifier::loop_isolation(false)]
    pub fn repo_usage(&self, repo: &str, start_after: Option<&Digest>, limit: usize) -> (r: Result<
        RepoUsagePage,
    >)
        requires
            self.valid(),
        ensures
            answers(
                seen(r),
                repo_usage_answer(
                    self.entries(),
                    repo@,
                    digest_view(start_after),
                    limit as nat,
                ),
                self.reliable(),
            ),
    {
        let id = match self.require_repo(repo) {
            Ok(id) => id,
            Err(e) => return Err(e),
        };
        let scope = blobs_in_repo(id);
        let cursor = match start_after {
            Some(d) => Some(repo_blob(id, d)),
            None => None,
        };
        let page = match self.page(scope.as_slice(), as_bytes(&cursor), limit) {
            Ok(page) => page,
            Err(e) => return Err(e),
        };
        let ghost es = self.entries();
        let ghost list = digests_listed(es, PREFIX_REPO_BLOB, id, digest_view(start_after));
        let ghost rows = page_entries(page.entries@);
        let ghost read = |e: Entry| blob_size_in(e);
        let next = match cursor_digest(&page.next, "repo blob cursor") {
            Ok(next) => next,
            Err(e) => return Err(e),
        };
        let mut bytes: u64 = 0;
        let ghost mut sizes: Seq<u64> = Seq::empty();
        proof {
            assert(rows.subrange(0, 0) =~= Seq::empty());
        }
        let mut i: usize = 0;
        while i < page.entries.len()
            invariant
                i <= page.entries@.len(),
                collected(rows.subrange(0, i as int), read) == Ok::<Seq<u64>, Fault>(sizes),
                bytes == wrapped_sum(sizes),
                sizes.len() == i,
            decreases page.entries@.len() - i,
        {
            proof {
                assert(rows[i as int].1 == page.entries@[i as int].1@);
                lemma_collected_step(rows, read, i as int);
            }
            match decode_repo_blob(page.entries[i].1.as_slice()) {
                Ok(record) => {
                    proof {
                        assert(sizes.push(record.size).drop_last() =~= sizes);
                        sizes = sizes.push(record.size);
                    }
                    bytes = bytes.wrapping_add(record.size);
                },
                Err(e) => {
                    proof {
                        lemma_collected_fault(rows, read, i + 1);
                    }
                    return Err(e);
                },
            }
            i += 1;
        }
        proof {
            assert(rows.subrange(0, i as int) =~= rows);
        }
        Ok(RepoUsagePage { blobs: page.entries.len() as u64, bytes, next })
    }

    /// Manifest count for a repo, one page at a time.
    pub fn count_manifests(
        &self,
        repo: &str,
        start_after: Option<&Digest>,
        limit: usize,
    ) -> (r: Result<ManifestCountPage>)
        requires
            self.valid(),
        ensures
            answers(
                seen(r),
                count_manifests_answer(
                    self.entries(),
                    repo@,
                    digest_view(start_after),
                    limit as nat,
                ),
                self.reliable(),
            ),
    {
        let id = match self.require_repo(repo) {
            Ok(id) => id,
            Err(e) => return Err(e),
        };
        let scope = manifests_in_repo(id);
        let cursor = match start_after {
            Some(d) => Some(manifest(id, d)),
            None => None,
        };
        let page = match self.page(scope.as_slice(), as_bytes(&cursor), limit) {
            Ok(page) => page,
            Err(e) => return Err(e),
        };
        assert(page_entries(page.entries@).len() == page.entries@.len());
        match cursor_digest(&page.next, "manifest cursor") {
            Ok(next) => Ok(ManifestCountPage { manifests: page.entries.len() as u64, next }),
            Err(e) => Err(e),
        }
    }

    /// Tag count for a repo, one page at a time. Counts keys without decoding the
    /// names.
    pub fn count_tags(&self, repo: &str, start_after: Option<&str>, limit: usize) -> (r: Result<
        TagCountPage,
    >)
        requires
            self.valid(),
        ensures
            answers(
                seen(r),
                count_tags_answer(self.entries(), repo@, text_view(start_after), limit as nat),
                self.reliable(),
            ),
    {
        let id = match self.require_repo(repo) {
            Ok(id) => id,
            Err(e) => return Err(e),
        };
        let scope = tags_in_repo(id);
        let cursor = match start_after {
            Some(t) => Some(tag(id, t)),
            None => None,
        };
        let page = match self.page(scope.as_slice(), as_bytes(&cursor), limit) {
            Ok(page) => page,
            Err(e) => return Err(e),
        };
        let ghost list = tags_listed(self.entries(), id, text_view(start_after));
        assert(page_entries(page.entries@).len() == page.entries@.len());
        let next = match &page.next {
            Some(key) => {
                proof {
                    lemma_listing(self.entries(), scope@, bytes_view(cursor));
                    assert(in_range(list[limit - 1].0, scope@, bytes_view(cursor)));
                    assert(key@.subrange(0, scope@.len() as int)[0] == scope@[0]);
                }
                match parse_tag_suffix(key.as_slice()) {
                    Some(t) => {
                        proof {
                            lemma_text_at(key@, 5, t@);
                        }
                        Some(t.to_owned())
                    },
                    None => return Err(RegistryError::corrupt("tag cursor")),
                }
            },
            None => None,
        };
        Ok(TagCountPage { tags: page.entries.len() as u64, next })
    }

    /// Which manifests reference a blob, across the whole registry.
    ///
    /// Registry-wide on purpose: the edges are keyed by the blob first precisely
    /// so that "what shares this layer" is one scan rather than one per
    /// repository.
    #[verifier::loop_isolation(false)]
    pub fn manifests_referencing_blob(
        &self,
        digest: &Digest,
        start_after: Option<&BlobReference>,
        limit: usize,
    ) -> (r: Result<BlobReferenceList>)
        requires
            self.valid(),
        ensures
            answers(
                seen(r),
                manifests_referencing_blob_answer(
                    self.entries(),
                    *digest,
                    match start_after {
                        Some(b) => Some(b.deep_view()),
                        None => None,
                    },
                    limit as nat,
                ),
                self.reliable(),
            ),
    {
        let scope = blob_refs(digest);
        let cursor = match start_after {
            Some(from) => match self.lookup_repo(from.repo.as_str()) {
                Ok(Some(id)) => Some(blob_ref(digest, id, &from.manifest)),
                Ok(None) => None,
                Err(e) => return Err(e),
            },
            None => None,
        };
        let page = match self.page(scope.as_slice(), as_bytes(&cursor), limit) {
            Ok(page) => page,
            Err(e) => return Err(e),
        };
        let ghost es = self.entries();
        let ghost list = listing(es, scope@, bytes_view(cursor));
        let ghost rows = page_entries(page.entries@);
        let ghost read = |e: Entry| reference_in(es, e.0);
        let mut references: Vec<BlobReference> = Vec::new();
        proof {
            assert(references.deep_view() =~= Seq::empty());
            assert(rows.subrange(0, 0) =~= Seq::empty());
        }
        let mut i: usize = 0;
        while i < page.entries.len()
            invariant
                i <= page.entries@.len(),
                collected(rows.subrange(0, i as int), read) == Ok::<
                    Seq<(Seq<char>, Digest)>,
                    Fault,
                >(references.deep_view()),
            decreases page.entries@.len() - i,
        {
            proof {
                assert(rows[i as int].0 == page.entries@[i as int].0@);
                lemma_collected_step(rows, read, i as int);
            }
            match self.blob_reference(page.entries[i].0.as_slice()) {
                Ok(b) => {
                    let ghost before = references.deep_view();
                    references.push(b);
                    assert(references.deep_view() =~= before.push(b.deep_view()));
                },
                Err(e) => {
                    proof {
                        if reference_in(es, rows[i as int].0) is Err {
                            lemma_collected_fault(rows, read, i + 1);
                        }
                    }
                    return Err(e);
                },
            }
            i += 1;
        }
        proof {
            assert(rows.subrange(0, i as int) =~= rows);
            lemma_collected_each(rows, read);
        }
        let n: usize = references.len();
        let next = match &page.next {
            Some(_) => {
                assert(references.deep_view().last() == references@[n - 1].deep_view());
                let last = &references[n - 1];
                Some(BlobReference { repo: last.repo.clone(), manifest: last.manifest })
            },
            None => None,
        };
        Ok(BlobReferenceList { references, next })
    }

    /// Indexes in a repo that list this manifest as one of their children.
    #[verifier::loop_isolation(false)]
    pub fn parents_of_manifest(
        &self,
        repo: &str,
        child: &Digest,
        start_after: Option<&Digest>,
        limit: usize,
    ) -> (r: Result<DigestList>)
        requires
            self.valid(),
        ensures
            answers(
                seen(r),
                parents_of_manifest_answer(
                    self.entries(),
                    repo@,
                    *child,
                    digest_view(start_after),
                    limit as nat,
                ),
                self.reliable(),
            ),
    {
        let id = match self.require_repo(repo) {
            Ok(id) => id,
            Err(e) => return Err(e),
        };
        let scope = parents_of(id, child);
        let cursor = match start_after {
            Some(d) => Some(child_parent(id, child, d)),
            None => None,
        };
        let page = match self.page(scope.as_slice(), as_bytes(&cursor), limit) {
            Ok(page) => page,
            Err(e) => return Err(e),
        };
        let ghost es = self.entries();
        let ghost list = edges_listed(
            es,
            PREFIX_CHILD_PARENT,
            id,
            *child,
            digest_view(start_after),
        );
        let ghost rows = page_entries(page.entries@);
        let ghost read = |e: Entry| parent_in(e);
        let mut digests: Vec<Digest> = Vec::new();
        proof {
            assert(digests@ =~= Seq::empty());
            assert(rows.subrange(0, 0) =~= Seq::empty());
        }
        let mut i: usize = 0;
        while i < page.entries.len()
            invariant
                i <= page.entries@.len(),
                collected(rows.subrange(0, i as int), read) == Ok::<Seq<Digest>, Fault>(digests@),
            decreases page.entries@.len() - i,
        {
            proof {
                assert(rows[i as int].0 == page.entries@[i as int].0@);
                lemma_collected_step(rows, read, i as int);
            }
            match second_digest_after_repo(page.entries[i].0.as_slice()) {
                Some(d) => digests.push(d),
                None => {
                    proof {
                        lemma_collected_fault(rows, read, i + 1);
                    }
                    return Err(RegistryError::corrupt("child-parent key"));
                },
            }
            i += 1;
        }
        proof {
            assert(rows.subrange(0, i as int) =~= rows);
            lemma_collected_each(rows, read);
        }
        let n: usize = digests.len();
        let next = match &page.next {
            Some(_) => Some(digests[n - 1]),
            None => None,
        };
        Ok(DigestList { digests, next })
    }

    fn blob_reference(&self, key: &[u8]) -> (r: Result<BlobReference>)
        requires
            self.valid(),
        ensures
            answers(seen(r), reference_in(self.entries(), key@), self.reliable()),
    {
        match blob_ref_target(key) {
            Some((id, manifest)) => match self.repo_name(id) {
                Ok(repo) => Ok(BlobReference { repo, manifest }),
                Err(e) => Err(e),
            },
            None => Err(RegistryError::corrupt("blob ref key")),
        }
    }
}

fn cursor_digest(key: &Option<Vec<u8>>, what: &str) -> (r: Result<Option<Digest>>)
    ensures
        seen(r) == digest_cursor(bytes_view(*key), what@),
{
    match key {
        Some(k) => match digest_after_repo(k.as_slice()) {
            Some(d) => Ok(Some(d)),
            None => Err(RegistryError::corrupt(what)),
        },
        None => Ok(None),
    }
}

} // verus!
