//! Deletion.
//!
//! Two operations, and both must be *visible* the instant they return. One batch
//! gives that for free. Nothing here touches blob bytes: a blob is only servable
//! while a reference edge or a membership says so, so bytes lingering after those
//! are gone are invisible.
use vstd::prelude::*;

use crate::digest::Digest;
use crate::keys::{
    blob_ref, blob_ref_key, blob_refs_in_repo, blob_refs_in_repo_key, child_parent, digest_key,
    edge_key, manifest, manifest_body, manifest_tag, manifest_tag_history, manifest_tag_history_key,
    manifest_tag_key, parents_of, parse_manifest_tag_suffix, referrer, repo_blob, tag, tag_history,
    tag_history_key, tag_key, tags_of_manifest, PREFIX_CHILD_PARENT, PREFIX_MANIFEST,
    PREFIX_MANIFEST_BODY, PREFIX_MANIFEST_TAG, PREFIX_REFERRER, PREFIX_REPO_BLOB,
};
use crate::meta::engine::{
    applied, bytes_view, has_key_under, lemma_listing, listing, page_entries,
    resuming_a_scan_continues_it, table, Entry, MetaEngine, OpView, WriteBatch,
};
use crate::registry::codec::{encode_event, event_bytes, kind_number};
use crate::registry::cosign::{artifact_subject, subject_of_artifact_tag};
use crate::registry::error::{answers, corrupt, seen, Fault, RegistryError, Result};
use crate::registry::registry::{
    as_bytes, collected, lemma_collected_fault, lemma_collected_step, manifest_lookup,
    repo_required, Planned, Registry,
};
use crate::registry::suffix::{lemma_text_at, text_at};
use crate::time::Timestamp;
use crate::types::{ManifestRecord, ManifestView, RepoId, TagEvent, TagEventKind};

verus! {

/// Page size for draining a manifest's own edge ranges. These are fan-in sets of
/// one manifest - its tags, the indexes listing it - so they are small; the
/// paging is there so a pathological case costs memory linear in the page.
pub const DRAIN_PAGE: usize = 256;

#[derive(Debug, Clone, PartialEq, Eq)]
pub struct ManifestDeleted {
    pub digest: Digest,
    /// Tags that pointed at this manifest and have gone with it.
    pub removed_tags: Vec<String>,
}

#[derive(Debug, Clone, PartialEq, Eq)]
pub struct BlobRefDeleted {
    pub digest: Digest,
    /// Whether the blob was in the repo's own blob set.
    pub was_member: bool,
    /// Reference edges from manifests in this repo that were dropped with it.
    pub references_removed: usize,
}

impl DeepView for ManifestDeleted {
    type V = (Digest, Seq<Seq<char>>);

    open spec fn deep_view(&self) -> Self::V {
        (self.digest, self.removed_tags.deep_view())
    }
}

impl DeepView for BlobRefDeleted {
    type V = (Digest, bool, nat);

    open spec fn deep_view(&self) -> Self::V {
        (self.digest, self.was_member, self.references_removed as nat)
    }
}

impl<T: DeepView> DeepView for Planned<T> {
    type V = (T::V, Seq<OpView>);

    open spec fn deep_view(&self) -> Self::V {
        (self.outcome.deep_view(), self.batch@)
    }
}

// --- what is planned ----------------------------------------------------------

/// A deletion for each item's key.
pub open spec fn deletions(keys: Seq<Seq<u8>>) -> Seq<OpView> {
    keys.map_values(|k: Seq<u8>| OpView::Delete(k))
}

/// The keys of some entries.
pub open spec fn keys_of(es: Seq<Entry>) -> Seq<Seq<u8>> {
    es.map_values(|e: Entry| e.0)
}

/// The tag that a manifest-tag key holds.
pub open spec fn tag_in(e: Entry, digest: Digest) -> std::result::Result<Seq<char>, Fault> {
    match text_at(e.0, 5 + digest.encoded().len() as int) {
        Some(t) => Ok(t),
        None => Err(corrupt("manifest-tag key"@)),
    }
}

/// The edge that an artifact tag implies, as a run of no or one key.
pub open spec fn implied_edge(repo: RepoId, tag: Seq<char>, digest: Digest) -> Seq<Seq<u8>> {
    match artifact_subject(tag) {
        Some(subject) => seq![edge_key(PREFIX_REFERRER, repo, subject, digest)],
        None => Seq::empty(),
    }
}

/// The event that a tag's removal leaves behind.
pub open spec fn deleted_event(m: ManifestView) -> Seq<u8> {
    event_bytes(kind_number(TagEventKind::Deleted), m.media_type, m.size)
}

/// What removing one tag of a manifest does: the tag and its reverse edge go, an
/// edge that only its name implied goes, and an event is written in both
/// directions.
pub open spec fn tag_removal(
    repo: RepoId,
    tag: Seq<char>,
    digest: Digest,
    m: ManifestView,
    now: nat,
) -> Seq<OpView> {
    deletions(
        seq![tag_key(repo, tag), manifest_tag_key(repo, digest, tag)] + implied_edge(
            repo,
            tag,
            digest,
        ),
    ) + seq![
        OpView::Put(tag_history_key(repo, tag, now, digest), deleted_event(m)),
        OpView::Put(manifest_tag_history_key(repo, digest, now, tag), deleted_event(m)),
    ]
}

/// What removing some tags of a manifest does.
pub open spec fn tag_removals(
    repo: RepoId,
    tags: Seq<Seq<char>>,
    digest: Digest,
    m: ManifestView,
    now: nat,
) -> Seq<OpView>
    decreases tags.len(),
{
    if tags.len() == 0 {
        Seq::empty()
    } else {
        tag_removals(repo, tags.drop_last(), digest, m, now) + tag_removal(
            repo,
            tags.last(),
            digest,
            m,
            now,
        )
    }
}

/// The keys that only this manifest accounts for: its record and body, one edge
/// per blob and per child it names, the edge to its subject, and the edges of the
/// indexes that name it.
pub open spec fn manifest_keys(es: Seq<Entry>, repo: RepoId, digest: Digest, m: ManifestView) -> Seq<
    Seq<u8>,
> {
    seq![digest_key(PREFIX_MANIFEST, repo, digest), digest_key(PREFIX_MANIFEST_BODY, repo, digest)]
        + m.layers.map_values(|blob: Digest| blob_ref_key(blob, repo, digest))
        + m.children.map_values(
        |c: (Digest, Option<crate::types::PlatformView>)|
            edge_key(PREFIX_CHILD_PARENT, repo, c.0, digest),
    ) + (match m.subject {
        Some(s) => seq![edge_key(PREFIX_REFERRER, repo, s, digest)],
        None => Seq::empty(),
    }) + keys_of(listing(es, digest_key(PREFIX_CHILD_PARENT, repo, digest), None))
}

/// The tags that point at a manifest.
pub open spec fn tags_pointing_at(es: Seq<Entry>, repo: RepoId, digest: Digest) -> std::result::Result<
    Seq<Seq<char>>,
    Fault,
> {
    collected(
        listing(es, digest_key(PREFIX_MANIFEST_TAG, repo, digest), None),
        |e: Entry| tag_in(e, digest),
    )
}

pub open spec fn manifest_delete_plan(
    es: Seq<Entry>,
    repo: Seq<char>,
    digest: Digest,
    now: nat,
) -> std::result::Result<((Digest, Seq<Seq<char>>), Seq<OpView>), Fault> {
    match repo_required(es, repo) {
        Err(e) => Err(e),
        Ok(id) => match manifest_lookup(es, id, digest) {
            Err(e) => Err(e),
            Ok(None) => Err(Fault::ManifestUnknown(repo, digest.text())),
            Ok(Some(m)) => match tags_pointing_at(es, id, digest) {
                Err(e) => Err(e),
                Ok(tags) => Ok(
                    (
                        (digest, tags),
                        deletions(manifest_keys(es, id, digest, m)) + tag_removals(
                            id,
                            tags,
                            digest,
                            m,
                            now,
                        ),
                    ),
                ),
            },
        },
    }
}

pub open spec fn blob_reference_delete_plan(
    es: Seq<Entry>,
    repo: Seq<char>,
    digest: Digest,
) -> std::result::Result<((Digest, bool, nat), Seq<OpView>), Fault> {
    match repo_required(es, repo) {
        Err(e) => Err(e),
        Ok(id) => {
            let member = digest_key(PREFIX_REPO_BLOB, id, digest);
            let was_member = has_key_under(es, member);
            let refs = keys_of(listing(es, blob_refs_in_repo_key(digest, id), None));
            if !was_member && refs.len() == 0 {
                Err(Fault::BlobUnknown(repo, digest))
            } else {
                Ok(
                    (
                        (digest, was_member, refs.len()),
                        deletions(refs) + deletions(
                            if was_member {
                                seq![member]
                            } else {
                                Seq::empty()
                            },
                        ),
                    ),
                )
            }
        },
    }
}

/// One more deletion.
proof fn lemma_deletions_push(keys: Seq<Seq<u8>>, k: Seq<u8>)
    ensures
        deletions(keys.push(k)) == deletions(keys).push(OpView::Delete(k)),
{
    assert(deletions(keys.push(k)) =~= deletions(keys).push(OpView::Delete(k)));
}

/// Deletions one after the other.
proof fn lemma_deletions_concat(a: Seq<Seq<u8>>, b: Seq<Seq<u8>>)
    ensures
        deletions(a + b) == deletions(a) + deletions(b),
{
    assert(deletions(a + b) =~= deletions(a) + deletions(b));
}

/// Add a deletion for each key.
fn delete_each(batch: &mut WriteBatch, keys: Vec<Vec<u8>>)
    ensures
        final(batch)@ == old(batch)@ + deletions(keys.deep_view()),
{
    let ghost before = batch@;
    let ghost all = keys.deep_view();
    let mut i: usize = 0;
    proof {
        assert(before + deletions(all.subrange(0, 0)) =~= before);
    }
    while i < keys.len()
        invariant
            i <= keys@.len(),
            all == keys.deep_view(),
            batch@ == before + deletions(all.subrange(0, i as int)),
        decreases keys@.len() - i,
    {
        let key = vstd::slice::slice_to_vec(keys[i].as_slice());
        let _ = batch.delete(key);
        proof {
            assert(all[i as int] =~= key@);
            assert(all.subrange(0, i + 1) =~= all.subrange(0, i as int).push(key@));
            lemma_deletions_push(all.subrange(0, i as int), key@);
            assert(batch@ =~= before + deletions(all.subrange(0, i + 1)));
        }
        i += 1;
    }
    assert(all.subrange(0, i as int) =~= all);
}

impl<E: MetaEngine> Registry<E> {
    /// Every key under `prefix`, read a page at a time.
    ///
    /// Internal only, and only over a single object's own edges. The
    /// no-unbounded-list rule is about what is exposed; a delete that cascaded
    /// over only the first page of its tags would simply be wrong.
    #[verifier::loop_isolation(false)]
    fn drain(&self, prefix: &[u8]) -> (r: Result<Vec<Vec<u8>>>)
        requires
            self.valid(),
        ensures
            match r {
                Ok(keys) => keys.deep_view() == keys_of(listing(self.entries(), prefix@, None)),
                Err(e) => e@ == Fault::Storage && !self.reliable(),
            },
    {
        let ghost es = self.entries();
        let ghost list = listing(es, prefix@, None);
        proof {
            lemma_listing(es, prefix@, None);
            assert(list.subrange(0, list.len() as int) =~= list);
        }
        let mut keys: Vec<Vec<u8>> = Vec::new();
        let mut cursor: Option<Vec<u8>> = None;
        let mut more: bool = true;
        proof {
            assert(keys.deep_view() =~= keys_of(list.subrange(0, 0)));
        }
        while more
            invariant
                keys@.len() <= list.len(),
                keys.deep_view() == keys_of(list.subrange(0, keys@.len() as int)),
                more ==> listing(es, prefix@, bytes_view(cursor)) == list.subrange(
                    keys@.len() as int,
                    list.len() as int,
                ),
                !more ==> keys@.len() == list.len(),
            decreases list.len() - keys@.len(), if more { 1int } else { 0int },
        {
            let page = match self.page(prefix, as_bytes(&cursor), DRAIN_PAGE) {
                Ok(page) => page,
                Err(e) => return Err(e),
            };
            let ghost done = keys@.len() as int;
            let ghost rest = list.subrange(done, list.len() as int);
            let ghost rows = page_entries(page.entries@);
            proof {
                assert(rows.len() == page.entries@.len());
                assert(rows.len() <= rest.len());
            }
            let mut i: usize = 0;
            while i < page.entries.len()
                invariant
                    i <= page.entries@.len(),
                    keys@.len() == done + i,
                    keys.deep_view() == keys_of(list.subrange(0, done + i)),
                decreases page.entries@.len() - i,
            {
                let key = vstd::slice::slice_to_vec(page.entries[i].0.as_slice());
                proof {
                    assert(rows[i as int].0 == key@);
                    assert(rest[i as int] == list[done + i]);
                }
                let ghost before = keys.deep_view();
                keys.push(key);
                proof {
                    assert(keys.deep_view() =~= before.push(key@)) by {
                        assert(key.deep_view() =~= key@);
                    }
                    assert(list.subrange(0, done + i + 1) =~= list.subrange(0, done + i).push(
                        list[done + i],
                    ));
                    assert(keys_of(list.subrange(0, done + i + 1)) =~= keys_of(
                        list.subrange(0, done + i),
                    ).push(key@));
                }
                i += 1;
            }
            match page.next {
                Some(next) => {
                    proof {
                        let n = done + DRAIN_PAGE;
                        assert(rest[DRAIN_PAGE - 1] == list[n - 1]);
                        resuming_a_scan_continues_it(es, prefix@, None, n as int);
                    }
                    cursor = Some(next);
                },
                None => {
                    more = false;
                },
            }
        }
        Ok(keys)
    }

    /// Plan the removal of one tag.
    fn stage_delete_tag(
        &self,
        batch: &mut WriteBatch,
        repo: RepoId,
        name: &str,
        digest: &Digest,
        record: &ManifestRecord,
        now: Timestamp,
    ) -> (r: Result<()>)
        ensures
            r is Ok,
            final(batch)@ == old(batch)@ + tag_removal(
                repo,
                name@,
                *digest,
                record.deep_view(),
                now@,
            ),
    {
        let ghost before = batch@;
        let ghost m = record.deep_view();
        let _ = batch.delete(tag(repo, name));
        let _ = batch.delete(manifest_tag(repo, digest, name));
        let subject = subject_of_artifact_tag(name);
        if let Some(subject) = &subject {
            let _ = batch.delete(referrer(repo, subject, digest));
        }
        proof {
            assert(batch@ =~= before + deletions(
                seq![tag_key(repo, name@), manifest_tag_key(repo, *digest, name@)] + implied_edge(
                    repo,
                    name@,
                    *digest,
                ),
            ));
        }
        let event = TagEvent {
            event: TagEventKind::Deleted,
            media_type: record.media_type.clone(),
            size: record.size,
        };
        let value = match encode_event(&event) {
            Ok(value) => value,
            Err(e) => return Err(e),
        };
        let copy = vstd::slice::slice_to_vec(value.as_slice());
        let _ = batch.put(tag_history(repo, name, now, digest), value);
        let _ = batch.put(manifest_tag_history(repo, digest, now, name), copy);
        assert(batch@ =~= before + tag_removal(repo, name@, *digest, m, now@));
        Ok(())
    }

    /// Delete a manifest.
    pub fn delete_manifest(&mut self, repo: &str, digest: &Digest, now: Timestamp) -> (r: Result<
        ManifestDeleted,
    >)
        requires
            old(self).valid(),
        ensures
            final(self).valid(),
            final(self).reliable() == old(self).reliable(),
            match (r, manifest_delete_plan(old(self).entries(), repo@, *digest, now@)) {
                (Ok(done), Ok((outcome, ops))) => done.deep_view() == outcome && table(
                    final(self).entries(),
                ) == applied(table(old(self).entries()), ops),
                (Err(e), plan) => final(self).entries() == old(self).entries() && (e@
                    == Fault::Storage && !old(self).reliable() || (plan matches Err(f) && e@ == f)),
                _ => false,
            },
    {
        match self.plan_manifest_delete(repo, digest, now) {
            Ok(planned) => match self.apply(&planned.batch) {
                Ok(()) => Ok(planned.outcome),
                Err(e) => Err(e),
            },
            Err(e) => Err(e),
        }
    }

    /// Plan the removal of a manifest and of every edge that named it.
    ///
    /// After this the manifest is purgeable: nothing is left that would make it
    /// look referenced. The edges are deleted one by one rather than by prefix,
    /// so that the batch says all there is to say.
    ///
    /// What is deliberately *not* deleted: the referrers pointing *at* this
    /// manifest, which still exist and whose subject may dangle; and blob
    /// membership, which outlives any single manifest.
    #[verifier::loop_isolation(false)]
    pub fn plan_manifest_delete(&self, repo: &str, digest: &Digest, now: Timestamp) -> (r: Result<
        Planned<ManifestDeleted>,
    >)
        requires
            self.valid(),
        ensures
            answers(
                seen(r),
                manifest_delete_plan(self.entries(), repo@, *digest, now@),
                self.reliable(),
            ),
    {
        let ghost es = self.entries();
        let id = match self.require_repo(repo) {
            Ok(id) => id,
            Err(e) => return Err(e),
        };
        let record = match self.manifest_record(id, digest) {
            Ok(Some(record)) => record,
            Ok(None) => return Err(
                RegistryError::ManifestUnknown {
                    repo: repo.to_owned(),
                    reference: digest.to_text(),
                },
            ),
            Err(e) => return Err(e),
        };
        let ghost m = record.deep_view();

        let mut batch = WriteBatch::new();
        let mut doomed: Vec<Vec<u8>> = Vec::new();
        doomed.push(manifest(id, digest));
        doomed.push(manifest_body(id, digest));
        let ghost own = seq![
            digest_key(PREFIX_MANIFEST, id, *digest),
            digest_key(PREFIX_MANIFEST_BODY, id, *digest),
        ];
        let ghost layer_keys = m.layers.map_values(|blob: Digest| blob_ref_key(blob, id, *digest));
        let ghost child_keys = m.children.map_values(
            |c: (Digest, Option<crate::types::PlatformView>)|
                edge_key(PREFIX_CHILD_PARENT, id, c.0, *digest),
        );
        proof {
            assert(doomed@[0].deep_view() =~= own[0]);
            assert(doomed@[1].deep_view() =~= own[1]);
            assert(doomed.deep_view() =~= own + layer_keys.subrange(0, 0));
        }
        let mut i: usize = 0;
        while i < record.layers.len()
            invariant
                i <= record.layers@.len(),
                doomed.deep_view() == own + layer_keys.subrange(0, i as int),
            decreases record.layers@.len() - i,
        {
            let key = blob_ref(&record.layers[i], id, digest);
            let ghost before = doomed.deep_view();
            doomed.push(key);
            proof {
                assert(key.deep_view() =~= layer_keys[i as int]);
                assert(doomed.deep_view() =~= before.push(layer_keys[i as int]));
                assert(doomed.deep_view() =~= own + layer_keys.subrange(0, i + 1));
            }
            i += 1;
        }
        let ghost with_layers = own + layer_keys;
        proof {
            assert(layer_keys.subrange(0, i as int) =~= layer_keys);
            assert(doomed.deep_view() =~= with_layers + child_keys.subrange(0, 0));
        }
        i = 0;
        while i < record.children.len()
            invariant
                i <= record.children@.len(),
                doomed.deep_view() == with_layers + child_keys.subrange(0, i as int),
            decreases record.children@.len() - i,
        {
            let key = child_parent(id, &record.children[i].digest, digest);
            let ghost before = doomed.deep_view();
            doomed.push(key);
            proof {
                assert(m.children[i as int].0 == record.children@[i as int].digest);
                assert(key.deep_view() =~= child_keys[i as int]);
                assert(doomed.deep_view() =~= before.push(child_keys[i as int]));
                assert(doomed.deep_view() =~= with_layers + child_keys.subrange(0, i + 1));
            }
            i += 1;
        }
        proof {
            assert(child_keys.subrange(0, i as int) =~= child_keys);
        }
        let ghost with_children = with_layers + child_keys;
        let ghost subject_keys = match m.subject {
            Some(s) => seq![edge_key(PREFIX_REFERRER, id, s, *digest)],
            None => Seq::empty(),
        };
        if let Some(subject) = &record.subject {
            let key = referrer(id, subject, digest);
            let ghost before = doomed.deep_view();
            doomed.push(key);
            proof {
                assert(key.deep_view() =~= subject_keys[0]);
                assert(doomed.deep_view() =~= before.push(subject_keys[0]));
            }
        }
        proof {
            assert(doomed.deep_view() =~= with_children + subject_keys);
        }
        delete_each(&mut batch, doomed);
        // The other direction of the parent edges: indexes that list *this*
        // manifest as a child.
        let parents = match self.drain(parents_of(id, digest).as_slice()) {
            Ok(parents) => parents,
            Err(e) => return Err(e),
        };
        delete_each(&mut batch, parents);
        proof {
            let tail = keys_of(listing(es, digest_key(PREFIX_CHILD_PARENT, id, *digest), None));
            lemma_deletions_concat(with_children + subject_keys, tail);
            assert(batch@ =~= deletions(manifest_keys(es, id, *digest, m)));
        }

        let rows = match self.drain(tags_of_manifest(id, digest).as_slice()) {
            Ok(rows) => rows,
            Err(e) => return Err(e),
        };
        let ghost list = listing(es, digest_key(PREFIX_MANIFEST_TAG, id, *digest), None);
        let ghost read = |e: Entry| tag_in(e, *digest);
        let mut removed_tags: Vec<String> = Vec::new();
        proof {
            assert(rows.deep_view().len() == rows@.len());
            assert(keys_of(list).len() == list.len());
            assert(removed_tags.deep_view() =~= Seq::empty());
            assert(list.subrange(0, 0) =~= Seq::empty());
        }
        i = 0;
        while i < rows.len()
            invariant
                i <= rows@.len(),
                collected(list.subrange(0, i as int), read) == Ok::<Seq<Seq<char>>, Fault>(
                    removed_tags.deep_view(),
                ),
            decreases rows@.len() - i,
        {
            let key = rows[i].as_slice();
            proof {
                assert(rows.deep_view()[i as int] == list[i as int].0);
                assert(rows@[i as int].deep_view() =~= key@);
                lemma_collected_step(list, read, i as int);
            }
            match parse_manifest_tag_suffix(key, digest) {
                Some(t) => {
                    proof {
                        lemma_text_at(key@, 5 + digest.encoded().len() as int, t@);
                    }
                    let ghost before = removed_tags.deep_view();
                    removed_tags.push(t.to_owned());
                    assert(removed_tags.deep_view() =~= before.push(t@));
                },
                None => {
                    proof {
                        lemma_collected_fault(list, read, i + 1);
                    }
                    return Err(RegistryError::corrupt("manifest-tag key"));
                },
            }
            i += 1;
        }
        let ghost tags = removed_tags.deep_view();
        let ghost planned = batch@;
        proof {
            assert(list.subrange(0, i as int) =~= list);
            assert(planned + tag_removals(id, tags.subrange(0, 0), *digest, m, now@) =~= planned);
        }
        i = 0;
        while i < removed_tags.len()
            invariant
                i <= removed_tags@.len(),
                batch@ == planned + tag_removals(
                    id,
                    tags.subrange(0, i as int),
                    *digest,
                    m,
                    now@,
                ),
            decreases removed_tags@.len() - i,
        {
            let ghost before = batch@;
            match self.stage_delete_tag(
                &mut batch,
                id,
                removed_tags[i].as_str(),
                digest,
                &record,
                now,
            ) {
                Ok(()) => {},
                Err(e) => return Err(e),
            }
            proof {
                let head = tags.subrange(0, i + 1);
                assert(head.drop_last() =~= tags.subrange(0, i as int));
                assert(head.last() == removed_tags@[i as int]@);
                assert(batch@ =~= planned + tag_removals(id, head, *digest, m, now@));
            }
            i += 1;
        }
        proof {
            assert(tags.subrange(0, i as int) =~= tags);
        }
        Ok(Planned { outcome: ManifestDeleted { digest: *digest, removed_tags }, batch })
    }

    /// Delete a blob's membership of a repository.
    pub fn delete_blob_reference(&mut self, repo: &str, digest: &Digest) -> (r: Result<
        BlobRefDeleted,
    >)
        requires
            old(self).valid(),
        ensures
            final(self).valid(),
            final(self).reliable() == old(self).reliable(),
            match (r, blob_reference_delete_plan(old(self).entries(), repo@, *digest)) {
                (Ok(done), Ok((outcome, ops))) => done.deep_view() == outcome && table(
                    final(self).entries(),
                ) == applied(table(old(self).entries()), ops),
                (Err(e), plan) => final(self).entries() == old(self).entries() && (e@
                    == Fault::Storage && !old(self).reliable() || (plan matches Err(f) && e@ == f)),
                _ => false,
            },
    {
        match self.plan_blob_reference_delete(repo, digest) {
            Ok(planned) => match self.apply(&planned.batch) {
                Ok(()) => Ok(planned.outcome),
                Err(e) => Err(e),
            },
            Err(e) => Err(e),
        }
    }

    /// Plan dropping a blob's membership of one repository.
    ///
    /// Both halves of what makes a blob servable have to go, not just the
    /// membership: leaving a reference edge behind would keep the blob servable
    /// under this name.
    pub fn plan_blob_reference_delete(&self, repo: &str, digest: &Digest) -> (r: Result<
        Planned<BlobRefDeleted>,
    >)
        requires
            self.valid(),
        ensures
            answers(
                seen(r),
                blob_reference_delete_plan(self.entries(), repo@, *digest),
                self.reliable(),
            ),
    {
        let id = match self.require_repo(repo) {
            Ok(id) => id,
            Err(e) => return Err(e),
        };
        let member = repo_blob(id, digest);
        let was_member = match self.engine().exists_prefix(member.as_slice()) {
            Ok(b) => b,
            Err(e) => return Err(RegistryError::Meta(e)),
        };
        let refs = match self.drain(blob_refs_in_repo(digest, id).as_slice()) {
            Ok(refs) => refs,
            Err(e) => return Err(e),
        };
        let references_removed: usize = refs.len();
        assert(refs.deep_view().len() == references_removed);
        if !was_member && references_removed == 0 {
            return Err(RegistryError::BlobUnknown { repo: repo.to_owned(), digest: *digest });
        }
        let mut batch = WriteBatch::new();
        let ghost keys = refs.deep_view();
        delete_each(&mut batch, refs);
        if was_member {
            let _ = batch.delete(member);
        }
        proof {
            let extra = if was_member {
                seq![digest_key(PREFIX_REPO_BLOB, id, *digest)]
            } else {
                Seq::empty()
            };
            assert(batch@ =~= deletions(keys) + deletions(extra));
        }
        Ok(
            Planned {
                outcome: BlobRefDeleted { digest: *digest, was_member, references_removed },
                batch,
            },
        )
    }
}

} // verus!
