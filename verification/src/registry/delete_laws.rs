//! What a deletion leaves behind, and what it does not.
use vstd::prelude::*;
use vstd::utf8::*;

use crate::bytes::{after, has_prefix, lemma_has_prefix_concat};
use crate::digest::Digest;
use crate::keys::{
    blob_key, blob_ref_key, blob_refs_in_repo_key, blob_refs_key, digest_key, edge_key,
    manifest_tag_history_key, manifest_tag_key, repo_bytes, repo_head, repo_name_key,
    repo_scans_are_disjoint, tag_history_key,
    tag_key, PREFIX_BLOB, PREFIX_BLOB_REF, PREFIX_CHILD_PARENT, PREFIX_MANIFEST,
    PREFIX_MANIFEST_BODY, PREFIX_MANIFEST_TAG, PREFIX_MANIFEST_TAG_HISTORY, PREFIX_REFERRER,
    PREFIX_REPO_BLOB, PREFIX_TAG, PREFIX_TAG_HISTORY,
};
use crate::meta::engine::{
    applied, applied_by_last_word, last_word, lemma_listing_is_complete, lemma_table_key_is_entry,
    listing, lookup, ordered, table, Entry, OpView,
};
use crate::registry::codec::{event_bytes, manifest_of};
use crate::registry::cosign::artifact_subject;
use crate::registry::delete::{
    blob_reference_delete_plan, deletions, keys_of, manifest_delete_plan, manifest_keys, tag_in,
    tag_removal, tag_removals, tags_pointing_at,
};
use crate::registry::error::Fault;
use crate::registry::registry::{lemma_collected_each, manifest_lookup, repo_required};
use crate::types::{ManifestView, PlatformView, RepoId};

verus! {

/// The table holds of `k` what the other holds of it.
pub open spec fn same_at(a: Map<Seq<u8>, Seq<u8>>, b: Map<Seq<u8>, Seq<u8>>, k: Seq<u8>) -> bool {
    a.contains_key(k) == b.contains_key(k) && (a.contains_key(k) ==> a[k] == b[k])
}

/// `op` is a deletion of `k`.
spec fn deletes(op: OpView, k: Seq<u8>) -> bool {
    op == OpView::Delete(k)
}

/// `op` says nothing of `k`.
spec fn leaves(op: OpView, k: Seq<u8>) -> bool {
    match op {
        OpView::Put(key, _) => key != k,
        OpView::Delete(key) => key != k,
        OpView::DeletePrefix(p) => !has_prefix(k, p),
    }
}

/// A batch none of whose mutations speaks of a key says nothing of it.
proof fn lemma_left(ops: Seq<OpView>, k: Seq<u8>)
    requires
        forall|i: int| 0 <= i < ops.len() ==> leaves(#[trigger] ops[i], k),
    ensures
        last_word(ops, k) is None,
    decreases ops.len(),
{
    if ops.len() > 0 {
        assert(leaves(ops[ops.len() - 1], k));
        lemma_left(ops.drop_last(), k);
    }
}

/// A batch that deletes a key, and otherwise does not speak of it, leaves nothing
/// there.
proof fn lemma_gone(ops: Seq<OpView>, k: Seq<u8>, at: int)
    requires
        0 <= at < ops.len(),
        deletes(ops[at], k),
        forall|i: int| 0 <= i < ops.len() ==> deletes(#[trigger] ops[i], k) || leaves(ops[i], k),
    ensures
        last_word(ops, k) == Some(None::<Seq<u8>>),
    decreases ops.len(),
{
    let n = ops.len() - 1;
    assert(deletes(ops[n], k) || leaves(ops[n], k));
    if at < n {
        let head = ops.drop_last();
        assert forall|i: int| 0 <= i < head.len() implies deletes(#[trigger] head[i], k) || leaves(
            head[i],
            k,
        ) by {
            assert(ops[i] == head[i]);
        }
        lemma_gone(head, k, at);
    }
}

/// Every mutation of some tags' removal concerns one of the tags.
proof fn lemma_tag_removals_ops(
    repo: RepoId,
    tags: Seq<Seq<char>>,
    digest: Digest,
    m: ManifestView,
    now: nat,
    i: int,
) -> (j: int)
    requires
        0 <= i < tag_removals(repo, tags, digest, m, now).len(),
    ensures
        0 <= j < tags.len(),
        tag_removal(repo, tags[j], digest, m, now).contains(
            tag_removals(repo, tags, digest, m, now)[i],
        ),
    decreases tags.len(),
{
    if tags.len() == 0 {
        0
    } else {
        let head = tag_removals(repo, tags.drop_last(), digest, m, now);
        let tail = tag_removal(repo, tags.last(), digest, m, now);
        if i < head.len() {
            lemma_tag_removals_ops(repo, tags.drop_last(), digest, m, now, i)
        } else {
            assert(tail[i - head.len()] == tag_removals(repo, tags, digest, m, now)[i]);
            tags.len() - 1
        }
    }
}

/// Every mutation of one tag's removal stands among those of all.
proof fn lemma_tag_removals_have(
    repo: RepoId,
    tags: Seq<Seq<char>>,
    digest: Digest,
    m: ManifestView,
    now: nat,
    j: int,
    x: int,
) -> (i: int)
    requires
        0 <= j < tags.len(),
        0 <= x < tag_removal(repo, tags[j], digest, m, now).len(),
    ensures
        0 <= i < tag_removals(repo, tags, digest, m, now).len(),
        tag_removals(repo, tags, digest, m, now)[i] == tag_removal(
            repo,
            tags[j],
            digest,
            m,
            now,
        )[x],
    decreases tags.len(),
{
    let head = tag_removals(repo, tags.drop_last(), digest, m, now);
    if j < tags.len() - 1 {
        lemma_tag_removals_have(repo, tags.drop_last(), digest, m, now, j, x)
    } else {
        head.len() + x
    }
}

/// Which keys one tag's removal speaks of.
proof fn lemma_tag_removal_op(
    repo: RepoId,
    tag: Seq<char>,
    digest: Digest,
    m: ManifestView,
    now: nat,
    op: OpView,
)
    requires
        tag_removal(repo, tag, digest, m, now).contains(op),
    ensures
        match op {
            OpView::Delete(k) => k == tag_key(repo, tag) || k == manifest_tag_key(repo, digest, tag)
                || exists|s: Digest| k == #[trigger] edge_key(PREFIX_REFERRER, repo, s, digest),
            OpView::Put(k, _) => k == tag_history_key(repo, tag, now, digest) || k
                == manifest_tag_history_key(repo, digest, now, tag),
            _ => false,
        },
{
}

/// The repo-scoped keys that a manifest's deletion speaks of stand under the
/// repo, each kind under its own head.
spec fn under(k: Seq<u8>, prefix: u8, repo: RepoId) -> bool {
    has_prefix(k, repo_head(prefix, repo))
}

proof fn lemma_under(prefix: u8, repo: RepoId, rest: Seq<u8>)
    ensures
        under(repo_head(prefix, repo) + rest, prefix, repo),
{
    lemma_has_prefix_concat(repo_head(prefix, repo), rest);
}

/// Keys under different heads differ.
proof fn lemma_heads_differ(k: Seq<u8>, p: u8, a: RepoId, q: u8, b: RepoId)
    requires
        under(k, p, a),
        under(k, q, b),
    ensures
        p == q,
        a == b,
{
    assert(repo_head(p, a)[0] == repo_head(q, b)[0]);
    repo_scans_are_disjoint(p, a, b, k);
}

/// What the plan of a manifest's deletion is.
proof fn lemma_plan(es: Seq<Entry>, repo: Seq<char>, digest: Digest, now: nat)
    requires
        manifest_delete_plan(es, repo, digest, now) is Ok,
    ensures
        repo_required(es, repo) is Ok,
        manifest_lookup(es, repo_required(es, repo)->Ok_0, digest) is Ok,
        manifest_lookup(es, repo_required(es, repo)->Ok_0, digest)->Ok_0 is Some,
        tags_pointing_at(es, repo_required(es, repo)->Ok_0, digest) is Ok,
{
}

/// One mutation of a manifest's deletion: which key it speaks of.
proof fn lemma_plan_op(
    es: Seq<Entry>,
    id: RepoId,
    digest: Digest,
    m: ManifestView,
    tags: Seq<Seq<char>>,
    now: nat,
    i: int,
)
    requires
        0 <= i < (deletions(manifest_keys(es, id, digest, m)) + tag_removals(
            id,
            tags,
            digest,
            m,
            now,
        )).len(),
    ensures
        ({
            let ops = deletions(manifest_keys(es, id, digest, m)) + tag_removals(
                id,
                tags,
                digest,
                m,
                now,
            );
            match ops[i] {
                OpView::Delete(k) => {
                    ||| exists|b: Digest| k == #[trigger] blob_ref_key(b, id, digest)
                    ||| under(k, PREFIX_MANIFEST, id)
                    ||| under(k, PREFIX_MANIFEST_BODY, id)
                    ||| under(k, PREFIX_CHILD_PARENT, id)
                    ||| under(k, PREFIX_TAG, id)
                    ||| under(k, PREFIX_MANIFEST_TAG, id)
                    ||| exists|s: Digest| k == #[trigger] edge_key(PREFIX_REFERRER, id, s, digest)
                },
                OpView::Put(k, _) => under(k, PREFIX_TAG_HISTORY, id) || under(
                    k,
                    PREFIX_MANIFEST_TAG_HISTORY,
                    id,
                ),
                _ => false,
            }
        }),
{
    let own = manifest_keys(es, id, digest, m);
    let removals = tag_removals(id, tags, digest, m, now);
    let ops = deletions(own) + removals;
    if i < own.len() {
        let k = own[i];
        assert(ops[i] == OpView::Delete(k));
        let layers = m.layers.map_values(|b: Digest| blob_ref_key(b, id, digest));
        let children = m.children.map_values(
            |c: (Digest, Option<PlatformView>)| edge_key(PREFIX_CHILD_PARENT, id, c.0, digest),
        );
        let subject = match m.subject {
            Some(s) => seq![edge_key(PREFIX_REFERRER, id, s, digest)],
            None => Seq::empty(),
        };
        let parents = listing(es, digest_key(PREFIX_CHILD_PARENT, id, digest), None);
        let (a, b) = (2 + layers.len() as int, 2 + layers.len() + children.len() as int);
        lemma_under(PREFIX_MANIFEST, id, digest.encoded());
        lemma_under(PREFIX_MANIFEST_BODY, id, digest.encoded());
        if i < 2 {
        } else if i < a {
            assert(k == layers[i - 2]);
            assert(k == blob_ref_key(m.layers[i - 2], id, digest));
        } else if i < b {
            let c = m.children[i - a].0;
            assert(k == children[i - a]);
            assert(k =~= repo_head(PREFIX_CHILD_PARENT, id) + (c.encoded() + digest.encoded()));
            lemma_under(PREFIX_CHILD_PARENT, id, c.encoded() + digest.encoded());
        } else if i < b + subject.len() {
            assert(k == subject[i - b]);
        } else {
            let e = parents[i - b - subject.len()];
            assert(k == keys_of(parents)[i - b - subject.len()]);
            lemma_listed_is_under(es, digest_key(PREFIX_CHILD_PARENT, id, digest), i - b
                - subject.len());
            lemma_under(PREFIX_CHILD_PARENT, id, digest.encoded());
            crate::bytes::lemma_prefix_chain(
                k,
                repo_head(PREFIX_CHILD_PARENT, id),
                digest_key(PREFIX_CHILD_PARENT, id, digest),
            );
        }
    } else {
        let x = i - own.len();
        assert(ops[i] == removals[x]);
        let j = lemma_tag_removals_ops(id, tags, digest, m, now, x);
        lemma_tag_removal_op(id, tags[j], digest, m, now, ops[i]);
        lemma_under(PREFIX_TAG, id, encode_utf8(tags[j]));
        assert(manifest_tag_key(id, digest, tags[j]) =~= repo_head(PREFIX_MANIFEST_TAG, id) + (
        digest.encoded() + encode_utf8(tags[j])));
        lemma_under(PREFIX_MANIFEST_TAG, id, digest.encoded() + encode_utf8(tags[j]));
        let t = encode_utf8(tags[j]) + seq![0u8] + crate::keys::instant_bytes(now)
            + digest.encoded();
        assert(tag_history_key(id, tags[j], now, digest) =~= repo_head(PREFIX_TAG_HISTORY, id) + t);
        lemma_under(PREFIX_TAG_HISTORY, id, t);
        let u = digest.encoded() + crate::keys::instant_bytes(now) + encode_utf8(tags[j]);
        assert(manifest_tag_history_key(id, digest, now, tags[j]) =~= repo_head(
            PREFIX_MANIFEST_TAG_HISTORY,
            id,
        ) + u);
        lemma_under(PREFIX_MANIFEST_TAG_HISTORY, id, u);
    }
}

/// What is listed under a prefix has it.
proof fn lemma_listed_is_under(es: Seq<Entry>, prefix: Seq<u8>, i: int)
    requires
        0 <= i < listing(es, prefix, None).len(),
    ensures
        has_prefix(listing(es, prefix, None)[i].0, prefix),
    decreases es.len(),
{
    reveal(Seq::filter);
    if es.len() > 0 {
        let part = listing(es.drop_last(), prefix, None);
        if i < part.len() {
            lemma_listed_is_under(es.drop_last(), prefix, i);
        }
    }
}

/// A referrer edge's key stands under its repo, and an edge's two ends can be
/// read off it.
proof fn lemma_edge_key(repo: RepoId, s: Digest, d: Digest)
    ensures
        under(edge_key(PREFIX_REFERRER, repo, s, d), PREFIX_REFERRER, repo),
        has_prefix(edge_key(PREFIX_REFERRER, repo, s, d), digest_key(PREFIX_REFERRER, repo, s)),
{
    assert(edge_key(PREFIX_REFERRER, repo, s, d) =~= repo_head(PREFIX_REFERRER, repo) + (
    s.encoded() + d.encoded()));
    lemma_under(PREFIX_REFERRER, repo, s.encoded() + d.encoded());
    lemma_has_prefix_concat(digest_key(PREFIX_REFERRER, repo, s), d.encoded());
}

/// A reference edge is told from every repo-scoped key by its first byte.
proof fn lemma_blob_ref_first(b: Digest, repo: RepoId, m: Digest)
    ensures
        blob_ref_key(b, repo, m)[0] == PREFIX_BLOB_REF,
{
}

/// A key under a head begins with the head's kind.
proof fn lemma_under_first(k: Seq<u8>, p: u8, repo: RepoId)
    requires
        under(k, p, repo),
    ensures
        k.len() >= 5,
        k[0] == p,
{
    assert(k.subrange(0, 5)[0] == repo_head(p, repo)[0]);
}

/// Keys that a manifest's deletion names are gone after it: any key that one of
/// its mutations deletes.
proof fn lemma_deleted_key_is_gone(
    es: Seq<Entry>,
    id: RepoId,
    digest: Digest,
    m: ManifestView,
    tags: Seq<Seq<char>>,
    now: nat,
    at: int,
    k: Seq<u8>,
)
    requires
        ({
            let ops = deletions(manifest_keys(es, id, digest, m)) + tag_removals(
                id,
                tags,
                digest,
                m,
                now,
            );
            0 <= at < ops.len() && ops[at] == OpView::Delete(k)
        }),
        k.len() > 0,
        k[0] != PREFIX_TAG_HISTORY,
        k[0] != PREFIX_MANIFEST_TAG_HISTORY,
    ensures
        !applied(
            table(es),
            deletions(manifest_keys(es, id, digest, m)) + tag_removals(id, tags, digest, m, now),
        ).contains_key(k),
{
    let ops = deletions(manifest_keys(es, id, digest, m)) + tag_removals(id, tags, digest, m, now);
    assert forall|i: int| 0 <= i < ops.len() implies deletes(#[trigger] ops[i], k) || leaves(
        ops[i],
        k,
    ) by {
        lemma_plan_op(es, id, digest, m, tags, now, i);
        if let OpView::Put(x, _) = ops[i] {
            if under(x, PREFIX_TAG_HISTORY, id) {
                lemma_under_first(x, PREFIX_TAG_HISTORY, id);
            } else {
                lemma_under_first(x, PREFIX_MANIFEST_TAG_HISTORY, id);
            }
        }
    }
    lemma_gone(ops, k, at);
    applied_by_last_word(table(es), ops, k);
}

/// Deleting a manifest removes its record and body, every edge from it to a blob,
/// to a child and to its subject, every edge of an index that lists it, and every
/// tag that pointed at it with the reverse edge: nothing is left that would make
/// it look referenced.
pub proof fn a_deleted_manifest_leaves_no_edge(
    es: Seq<Entry>,
    repo: Seq<char>,
    digest: Digest,
    now: nat,
)
    requires
        ordered(es),
        manifest_delete_plan(es, repo, digest, now) is Ok,
    ensures
        ({
            let id = repo_required(es, repo)->Ok_0;
            let m = manifest_lookup(es, id, digest)->Ok_0->0;
            let (outcome, ops) = manifest_delete_plan(es, repo, digest, now)->Ok_0;
            let left = applied(table(es), ops);
            &&& !left.contains_key(digest_key(PREFIX_MANIFEST, id, digest))
            &&& !left.contains_key(digest_key(PREFIX_MANIFEST_BODY, id, digest))
            &&& forall|i: int|
                0 <= i < m.layers.len() ==> !left.contains_key(
                    blob_ref_key(#[trigger] m.layers[i], id, digest),
                )
            &&& forall|i: int|
                0 <= i < m.children.len() ==> !left.contains_key(
                    edge_key(PREFIX_CHILD_PARENT, id, (#[trigger] m.children[i]).0, digest),
                )
            &&& m.subject matches Some(s) ==> !left.contains_key(
                edge_key(PREFIX_REFERRER, id, s, digest),
            )
            &&& forall|i: int|
                0 <= i < outcome.1.len() ==> !left.contains_key(
                    tag_key(id, #[trigger] outcome.1[i]),
                )
            &&& forall|k: Seq<u8>|
                has_prefix(k, digest_key(PREFIX_CHILD_PARENT, id, digest))
                    ==> !#[trigger] left.contains_key(k)
            &&& forall|k: Seq<u8>|
                has_prefix(k, digest_key(PREFIX_MANIFEST_TAG, id, digest))
                    ==> !#[trigger] left.contains_key(k)
        }),
{
    lemma_plan(es, repo, digest, now);
    let id = repo_required(es, repo)->Ok_0;
    let m = manifest_lookup(es, id, digest)->Ok_0->0;
    let (outcome, ops) = manifest_delete_plan(es, repo, digest, now)->Ok_0;
    let tags = outcome.1;
    let left = applied(table(es), ops);
    let own = manifest_keys(es, id, digest, m);
    let layers = m.layers.map_values(|b: Digest| blob_ref_key(b, id, digest));
    let children = m.children.map_values(
        |c: (Digest, Option<PlatformView>)| edge_key(PREFIX_CHILD_PARENT, id, c.0, digest),
    );
    let subject = match m.subject {
        Some(s) => seq![edge_key(PREFIX_REFERRER, id, s, digest)],
        None => Seq::empty(),
    };
    let parents = listing(es, digest_key(PREFIX_CHILD_PARENT, id, digest), None);
    let (a, b) = (2 + layers.len() as int, 2 + layers.len() + children.len() as int);
    assert forall|i: int| 0 <= i < own.len() && own[i].len() > 0 && own[i][0] != PREFIX_TAG_HISTORY
        && own[i][0] != PREFIX_MANIFEST_TAG_HISTORY implies !left.contains_key(
        #[trigger] own[i],
    ) by {
        lemma_deleted_key_is_gone(es, id, digest, m, tags, now, i, own[i]);
    }
    assert(own[0] == digest_key(PREFIX_MANIFEST, id, digest) && own[0][0] == PREFIX_MANIFEST);
    assert(own[1] == digest_key(PREFIX_MANIFEST_BODY, id, digest) && own[1][0]
        == PREFIX_MANIFEST_BODY);
    assert forall|i: int| 0 <= i < m.layers.len() implies !left.contains_key(
        blob_ref_key(#[trigger] m.layers[i], id, digest),
    ) by {
        assert(own[2 + i] == layers[i]);
        lemma_blob_ref_first(m.layers[i], id, digest);
    }
    assert forall|i: int| 0 <= i < m.children.len() implies !left.contains_key(
        edge_key(PREFIX_CHILD_PARENT, id, (#[trigger] m.children[i]).0, digest),
    ) by {
        assert(own[a + i] == children[i]);
        assert(children[i][0] == PREFIX_CHILD_PARENT);
    }
    if m.subject is Some {
        assert(own[b] == subject[0]);
        assert(subject[0][0] == PREFIX_REFERRER);
    }
    assert forall|i: int| 0 <= i < tags.len() implies !left.contains_key(
        tag_key(id, #[trigger] tags[i]),
    ) by {
        let removal = tag_removal(id, tags[i], digest, m, now);
        assert(removal[0] == OpView::Delete(tag_key(id, tags[i])));
        let x = lemma_tag_removals_have(id, tags, digest, m, now, i, 0);
        assert(ops[own.len() + x] == OpView::Delete(tag_key(id, tags[i])));
        assert(tag_key(id, tags[i])[0] == PREFIX_TAG);
        lemma_deleted_key_is_gone(
            es,
            id,
            digest,
            m,
            tags,
            now,
            own.len() + x,
            tag_key(id, tags[i]),
        );
    }
    assert forall|k: Seq<u8>| has_prefix(k, digest_key(PREFIX_CHILD_PARENT, id, digest)) implies !
    #[trigger] left.contains_key(k) by {
        assert(k.subrange(0, digest_key(PREFIX_CHILD_PARENT, id, digest).len() as int)[0]
            == PREFIX_CHILD_PARENT);
        if left.contains_key(k) {
            lemma_kept_or_put(es, id, digest, m, tags, now, k);
            lemma_table_key_is_entry(es, k);
            let j = choose|j: int| 0 <= j < es.len() && #[trigger] es[j] == (k, table(es)[k]);
            lemma_listing_is_complete(es, digest_key(PREFIX_CHILD_PARENT, id, digest), None, j);
            let x = choose|x: int| 0 <= x < parents.len() && parents[x] == es[j];
            assert(keys_of(parents)[x] == k);
            assert(own[b + subject.len() + x] == k);
        }
    }
    assert forall|k: Seq<u8>| has_prefix(k, digest_key(PREFIX_MANIFEST_TAG, id, digest)) implies !
    #[trigger] left.contains_key(k) by {
        let scope = digest_key(PREFIX_MANIFEST_TAG, id, digest);
        let list = listing(es, scope, None);
        let read = |e: Entry| tag_in(e, digest);
        assert(k.subrange(0, scope.len() as int)[0] == PREFIX_MANIFEST_TAG);
        if left.contains_key(k) {
            lemma_kept_or_put(es, id, digest, m, tags, now, k);
            lemma_table_key_is_entry(es, k);
            let j = choose|j: int| 0 <= j < es.len() && #[trigger] es[j] == (k, table(es)[k]);
            lemma_listing_is_complete(es, scope, None, j);
            let x = choose|x: int| 0 <= x < list.len() && list[x] == es[j];
            lemma_collected_each(list, read);
            assert(read(list[x]) == Ok::<Seq<char>, Fault>(tags[x]));
            decode_utf8_encode_utf8(after(k, scope.len() as int));
            assert(k =~= scope + after(k, scope.len() as int));
            assert(k == manifest_tag_key(id, digest, tags[x]));
            let removal = tag_removal(id, tags[x], digest, m, now);
            assert(removal[1] == OpView::Delete(k));
            let y = lemma_tag_removals_have(id, tags, digest, m, now, x, 1);
            assert(ops[own.len() + y] == OpView::Delete(k));
            lemma_deleted_key_is_gone(es, id, digest, m, tags, now, own.len() + y, k);
        }
    }
}

/// A key outside the history that is there after a manifest's deletion was there
/// before.
proof fn lemma_kept_or_put(
    es: Seq<Entry>,
    id: RepoId,
    digest: Digest,
    m: ManifestView,
    tags: Seq<Seq<char>>,
    now: nat,
    k: Seq<u8>,
)
    requires
        k.len() > 0,
        k[0] != PREFIX_TAG_HISTORY,
        k[0] != PREFIX_MANIFEST_TAG_HISTORY,
        applied(
            table(es),
            deletions(manifest_keys(es, id, digest, m)) + tag_removals(id, tags, digest, m, now),
        ).contains_key(k),
    ensures
        table(es).contains_key(k),
{
    let ops = deletions(manifest_keys(es, id, digest, m)) + tag_removals(id, tags, digest, m, now);
    if exists|i: int| 0 <= i < ops.len() && deletes(#[trigger] ops[i], k) {
        let i = choose|i: int| 0 <= i < ops.len() && deletes(#[trigger] ops[i], k);
        lemma_deleted_key_is_gone(es, id, digest, m, tags, now, i, k);
    } else {
        assert forall|i: int| 0 <= i < ops.len() implies leaves(#[trigger] ops[i], k) by {
            lemma_plan_op(es, id, digest, m, tags, now, i);
            assert(!deletes(ops[i], k));
            if let OpView::Put(x, _) = ops[i] {
                if under(x, PREFIX_TAG_HISTORY, id) {
                    lemma_under_first(x, PREFIX_TAG_HISTORY, id);
                } else {
                    lemma_under_first(x, PREFIX_MANIFEST_TAG_HISTORY, id);
                }
            }
        }
        lemma_left(ops, k);
        applied_by_last_word(table(es), ops, k);
    }
}

/// Deleting a manifest leaves blob records and blob membership as they were, and
/// the referrers that name it as their subject: those still exist, and a subject
/// may dangle.
pub proof fn a_deleted_manifest_leaves_blobs_and_referrers(
    es: Seq<Entry>,
    repo: Seq<char>,
    digest: Digest,
    now: nat,
    blob: Digest,
    other: RepoId,
    referrer: Digest,
)
    requires
        manifest_delete_plan(es, repo, digest, now) is Ok,
        referrer != digest,
    ensures
        ({
            let id = repo_required(es, repo)->Ok_0;
            let left = applied(table(es), manifest_delete_plan(es, repo, digest, now)->Ok_0.1);
            &&& same_at(left, table(es), blob_key(blob))
            &&& same_at(left, table(es), digest_key(PREFIX_REPO_BLOB, other, blob))
            &&& same_at(left, table(es), edge_key(PREFIX_REFERRER, id, digest, referrer))
        }),
{
    lemma_plan(es, repo, digest, now);
    let id = repo_required(es, repo)->Ok_0;
    let m = manifest_lookup(es, id, digest)->Ok_0->0;
    let (outcome, ops) = manifest_delete_plan(es, repo, digest, now)->Ok_0;
    let tags = outcome.1;
    let (x, y, z) = (
        blob_key(blob),
        digest_key(PREFIX_REPO_BLOB, other, blob),
        edge_key(PREFIX_REFERRER, id, digest, referrer),
    );
    assert(x[0] == PREFIX_BLOB && y[0] == PREFIX_REPO_BLOB && z[0] == PREFIX_REFERRER);
    assert forall|i: int| 0 <= i < ops.len() implies leaves(#[trigger] ops[i], x) && leaves(
        ops[i],
        y,
    ) && leaves(ops[i], z) by {
        lemma_plan_op(es, id, digest, m, tags, now, i);
        match ops[i] {
            OpView::Delete(k) => {
                if exists|b: Digest| k == #[trigger] blob_ref_key(b, id, digest) {
                    let b = choose|b: Digest| k == #[trigger] blob_ref_key(b, id, digest);
                    lemma_blob_ref_first(b, id, digest);
                } else if under(k, PREFIX_MANIFEST, id) {
                    lemma_under_first(k, PREFIX_MANIFEST, id);
                } else if under(k, PREFIX_MANIFEST_BODY, id) {
                    lemma_under_first(k, PREFIX_MANIFEST_BODY, id);
                } else if under(k, PREFIX_CHILD_PARENT, id) {
                    lemma_under_first(k, PREFIX_CHILD_PARENT, id);
                } else if under(k, PREFIX_TAG, id) {
                    lemma_under_first(k, PREFIX_TAG, id);
                } else if under(k, PREFIX_MANIFEST_TAG, id) {
                    lemma_under_first(k, PREFIX_MANIFEST_TAG, id);
                } else {
                    let s = choose|s: Digest|
                        k == #[trigger] edge_key(PREFIX_REFERRER, id, s, digest);
                    lemma_edge_key(id, s, digest);
                    lemma_edge_key(id, digest, referrer);
                    lemma_under_first(k, PREFIX_REFERRER, id);
                    if k == z {
                        crate::keys::digest_scans_are_disjoint(
                            PREFIX_REFERRER,
                            id,
                            s,
                            id,
                            digest,
                            k,
                        );
                        lemma_has_prefix_concat(
                            digest_key(PREFIX_REFERRER, id, digest),
                            digest.encoded(),
                        );
                        lemma_has_prefix_concat(
                            digest_key(PREFIX_REFERRER, id, digest),
                            referrer.encoded(),
                        );
                        crate::digest::encoded_digest_is_injective(digest, referrer);
                    }
                }
            },
            OpView::Put(k, _) => {
                if under(k, PREFIX_TAG_HISTORY, id) {
                    lemma_under_first(k, PREFIX_TAG_HISTORY, id);
                } else {
                    lemma_under_first(k, PREFIX_MANIFEST_TAG_HISTORY, id);
                }
            },
            _ => {},
        }
    }
    lemma_left(ops, x);
    lemma_left(ops, y);
    lemma_left(ops, z);
    applied_by_last_word(table(es), ops, x);
    applied_by_last_word(table(es), ops, y);
    applied_by_last_word(table(es), ops, z);
}

/// Deleting a manifest changes nothing of another repository.
pub proof fn a_deleted_manifest_stays_in_its_repository(
    es: Seq<Entry>,
    repo: Seq<char>,
    digest: Digest,
    now: nat,
    prefix: u8,
    other: RepoId,
    k: Seq<u8>,
)
    requires
        manifest_delete_plan(es, repo, digest, now) is Ok,
        other != repo_required(es, repo)->Ok_0,
        prefix != PREFIX_BLOB_REF,
        has_prefix(k, repo_head(prefix, other)),
    ensures
        same_at(
            applied(table(es), manifest_delete_plan(es, repo, digest, now)->Ok_0.1),
            table(es),
            k,
        ),
{
    lemma_plan(es, repo, digest, now);
    let id = repo_required(es, repo)->Ok_0;
    let m = manifest_lookup(es, id, digest)->Ok_0->0;
    let (outcome, ops) = manifest_delete_plan(es, repo, digest, now)->Ok_0;
    let tags = outcome.1;
    lemma_under_first(k, prefix, other);
    assert forall|i: int| 0 <= i < ops.len() implies leaves(#[trigger] ops[i], k) by {
        lemma_plan_op(es, id, digest, m, tags, now, i);
        if !leaves(ops[i], k) {
            if exists|b: Digest| k == #[trigger] blob_ref_key(b, id, digest) {
                let b = choose|b: Digest| k == #[trigger] blob_ref_key(b, id, digest);
                lemma_blob_ref_first(b, id, digest);
            } else if exists|s: Digest| k == #[trigger] edge_key(PREFIX_REFERRER, id, s, digest) {
                let s = choose|s: Digest| k == #[trigger] edge_key(PREFIX_REFERRER, id, s, digest);
                lemma_edge_key(id, s, digest);
                lemma_heads_differ(k, prefix, other, PREFIX_REFERRER, id);
            } else {
                let p = choose|p: u8| #[trigger] under(k, p, id);
                assert(under(k, p, id));
                lemma_heads_differ(k, prefix, other, p, id);
            }
        }
    }
    lemma_left(ops, k);
    applied_by_last_word(table(es), ops, k);
}

/// After a blob's reference is deleted, the repository neither holds the blob nor
/// refers to it: it is unservable there at once.
pub proof fn a_deleted_blob_reference_is_unservable(es: Seq<Entry>, repo: Seq<char>, digest: Digest)
    requires
        ordered(es),
        blob_reference_delete_plan(es, repo, digest) is Ok,
    ensures
        ({
            let id = repo_required(es, repo)->Ok_0;
            let left = applied(table(es), blob_reference_delete_plan(es, repo, digest)->Ok_0.1);
            &&& !left.contains_key(digest_key(PREFIX_REPO_BLOB, id, digest))
            &&& forall|k: Seq<u8>|
                has_prefix(k, blob_refs_in_repo_key(digest, id)) ==> !#[trigger] left.contains_key(
                    k,
                )
        }),
{
    let id = repo_required(es, repo)->Ok_0;
    let (outcome, ops) = blob_reference_delete_plan(es, repo, digest)->Ok_0;
    let left = applied(table(es), ops);
    let scope = blob_refs_in_repo_key(digest, id);
    let member = digest_key(PREFIX_REPO_BLOB, id, digest);
    let list = listing(es, scope, None);
    let refs = keys_of(list);
    assert forall|i: int, k: Seq<u8>| 0 <= i < ops.len() implies #[trigger] deletes(ops[i], k)
        || leaves(ops[i], k) by {}
    assert forall|k: Seq<u8>| has_prefix(k, scope) implies !#[trigger] left.contains_key(k) by {
        applied_by_last_word(table(es), ops, k);
        if left.contains_key(k) {
            if table(es).contains_key(k) {
                lemma_table_key_is_entry(es, k);
                let j = choose|j: int| 0 <= j < es.len() && #[trigger] es[j] == (k, table(es)[k]);
                lemma_listing_is_complete(es, scope, None, j);
                let x = choose|x: int| 0 <= x < list.len() && list[x] == es[j];
                assert(ops[x] == OpView::Delete(refs[x]));
                assert(deletes(ops[x], k));
                lemma_gone(ops, k, x);
            } else {
                lemma_only_deletions(ops, k);
            }
        }
    }
    applied_by_last_word(table(es), ops, member);
    if left.contains_key(member) {
        if outcome.1 {
            assert(ops[refs.len() as int] == OpView::Delete(member));
            assert(deletes(ops[refs.len() as int], member));
            lemma_gone(ops, member, refs.len() as int);
        } else {
            lemma_only_deletions(ops, member);
            lemma_table_key_is_entry(es, member);
            let j = choose|j: int|
                0 <= j < es.len() && #[trigger] es[j] == (member, table(es)[member]);
            assert(member.subrange(0, member.len() as int) =~= member);
            assert(has_prefix(es[j].0, member));
        }
    }
}

/// A batch of deletions never brings a key in.
proof fn lemma_only_deletions(ops: Seq<OpView>, k: Seq<u8>)
    requires
        forall|i: int| 0 <= i < ops.len() ==> #[trigger] ops[i] is Delete,
    ensures
        last_word(ops, k) is None || last_word(ops, k) == Some(None::<Seq<u8>>),
    decreases ops.len(),
{
    if ops.len() > 0 {
        assert(ops[ops.len() - 1] is Delete);
        lemma_only_deletions(ops.drop_last(), k);
    }
}

/// Deleting a blob's reference from one repository leaves it in every other, and
/// leaves the blob's own record: whether the bytes go is not this operation's
/// business.
pub proof fn a_deleted_blob_reference_stays_elsewhere(
    es: Seq<Entry>,
    repo: Seq<char>,
    digest: Digest,
    other: RepoId,
    k: Seq<u8>,
)
    requires
        blob_reference_delete_plan(es, repo, digest) is Ok,
        other != repo_required(es, repo)->Ok_0,
        has_prefix(k, blob_refs_in_repo_key(digest, other)) || k == digest_key(
            PREFIX_REPO_BLOB,
            other,
            digest,
        ) || k == blob_key(digest),
    ensures
        same_at(
            applied(table(es), blob_reference_delete_plan(es, repo, digest)->Ok_0.1),
            table(es),
            k,
        ),
{
    let id = repo_required(es, repo)->Ok_0;
    let (outcome, ops) = blob_reference_delete_plan(es, repo, digest)->Ok_0;
    let scope = blob_refs_in_repo_key(digest, id);
    let theirs = blob_refs_in_repo_key(digest, other);
    let member = digest_key(PREFIX_REPO_BLOB, id, digest);
    let list = listing(es, scope, None);
    let refs = keys_of(list);
    let n = blob_refs_key(digest).len() as int;
    assert(member[0] == PREFIX_REPO_BLOB);
    assert forall|i: int| 0 <= i < ops.len() implies leaves(#[trigger] ops[i], k) by {
        if i < refs.len() {
            lemma_listed_is_under(es, scope, i);
            let x = refs[i];
            assert(ops[i] == OpView::Delete(x));
            assert(x.subrange(0, scope.len() as int)[0] == PREFIX_BLOB_REF);
            if x == k {
                if has_prefix(k, theirs) {
                    assert(scope == theirs);
                    assert(crate::keys::repo_bytes(id) =~= after(scope, n));
                    assert(crate::keys::repo_bytes(other) =~= after(theirs, n));
                    crate::keys::repo_bytes_injective(id, other);
                } else if k == digest_key(PREFIX_REPO_BLOB, other, digest) {
                    assert(k[0] == PREFIX_REPO_BLOB);
                } else {
                    assert(k[0] == PREFIX_BLOB);
                }
            }
        } else {
            assert(ops[i] == OpView::Delete(member));
            if member == k {
                if has_prefix(k, theirs) {
                    assert(k.subrange(0, theirs.len() as int)[0] == PREFIX_BLOB_REF);
                } else if k == digest_key(PREFIX_REPO_BLOB, other, digest) {
                    lemma_under(PREFIX_REPO_BLOB, id, digest.encoded());
                    lemma_under(PREFIX_REPO_BLOB, other, digest.encoded());
                    lemma_heads_differ(k, PREFIX_REPO_BLOB, id, PREFIX_REPO_BLOB, other);
                } else {
                    assert(k[0] == PREFIX_BLOB);
                }
            }
        }
    }
    lemma_left(ops, k);
    applied_by_last_word(table(es), ops, k);
}

// --- what stays as it was ---------------------------------------------------------

/// The tags that a deletion takes are those whose reverse edge stands in the store.
proof fn lemma_tags_are_the_edges(
    es: Seq<Entry>,
    id: RepoId,
    digest: Digest,
    tags: Seq<Seq<char>>,
    t: Seq<char>,
)
    requires
        ordered(es),
        tags_pointing_at(es, id, digest) == Ok::<Seq<Seq<char>>, Fault>(tags),
    ensures
        tags.contains(t) <==> table(es).contains_key(manifest_tag_key(id, digest, t)),
{
    let scope = digest_key(PREFIX_MANIFEST_TAG, id, digest);
    let list = listing(es, scope, None);
    let read = |e: Entry| tag_in(e, digest);
    let k = manifest_tag_key(id, digest, t);
    lemma_collected_each(list, read);
    crate::meta::engine::lemma_listing(es, scope, None);
    if tags.contains(t) {
        let x = choose|x: int| 0 <= x < tags.len() && tags[x] == t;
        assert(read(list[x]) == Ok::<Seq<char>, Fault>(tags[x]));
        lemma_listed_is_under(es, scope, x);
        let key = list[x].0;
        decode_utf8_encode_utf8(after(key, scope.len() as int));
        assert(key =~= scope + after(key, scope.len() as int));
        assert(key == k);
        assert(es.contains(list[x]));
        let i = choose|i: int| 0 <= i < es.len() && es[i] == list[x];
        crate::meta::engine::lemma_lookup_at(es, i);
    }
    if table(es).contains_key(k) {
        lemma_table_key_is_entry(es, k);
        let j = choose|j: int| 0 <= j < es.len() && #[trigger] es[j] == (k, table(es)[k]);
        lemma_has_prefix_concat(scope, encode_utf8(t));
        lemma_listing_is_complete(es, scope, None, j);
        let x = choose|x: int| 0 <= x < list.len() && list[x] == es[j];
        crate::registry::suffix::tag_suffix_matches_the_encoder(id, digest, t);
        assert(read(list[x]) == Ok::<Seq<char>, Fault>(tags[x]));
        assert(tags[x] == t);
    }
}

/// One mutation of a manifest's deletion leaves every key that is none of the
/// manifest's own.
proof fn lemma_op_leaves(
    es: Seq<Entry>,
    id: RepoId,
    digest: Digest,
    m: ManifestView,
    tags: Seq<Seq<char>>,
    now: nat,
    k: Seq<u8>,
    i: int,
)
    requires
        0 <= i < (deletions(manifest_keys(es, id, digest, m)) + tag_removals(
            id,
            tags,
            digest,
            m,
            now,
        )).len(),
        k != digest_key(PREFIX_MANIFEST, id, digest),
        k != digest_key(PREFIX_MANIFEST_BODY, id, digest),
        forall|b: Digest| m.layers.contains(b) ==> k != #[trigger] blob_ref_key(b, id, digest),
        forall|x: int|
            0 <= x < m.children.len() ==> k != edge_key(
                PREFIX_CHILD_PARENT,
                id,
                (#[trigger] m.children[x]).0,
                digest,
            ),
        m.subject matches Some(s) ==> k != edge_key(PREFIX_REFERRER, id, s, digest),
        !has_prefix(k, digest_key(PREFIX_CHILD_PARENT, id, digest)),
        forall|t: Seq<char>| #[trigger]
            tags.contains(t) ==> k != tag_key(id, t) && k != manifest_tag_key(id, digest, t) && k
                != tag_history_key(id, t, now, digest) && k != manifest_tag_history_key(
                id,
                digest,
                now,
                t,
            ) && (artifact_subject(t) matches Some(s) ==> k != edge_key(
                PREFIX_REFERRER,
                id,
                s,
                digest,
            )),
    ensures
        leaves(
            (deletions(manifest_keys(es, id, digest, m)) + tag_removals(
                id,
                tags,
                digest,
                m,
                now,
            ))[i],
            k,
        ),
{
    let own = manifest_keys(es, id, digest, m);
    let removals = tag_removals(id, tags, digest, m, now);
    let ops = deletions(own) + removals;
    if i < own.len() {
        let x = own[i];
        assert(ops[i] == OpView::Delete(x));
        let layers = m.layers.map_values(|b: Digest| blob_ref_key(b, id, digest));
        let children = m.children.map_values(
            |c: (Digest, Option<PlatformView>)| edge_key(PREFIX_CHILD_PARENT, id, c.0, digest),
        );
        let subject = match m.subject {
            Some(s) => seq![edge_key(PREFIX_REFERRER, id, s, digest)],
            None => Seq::empty(),
        };
        let parents = listing(es, digest_key(PREFIX_CHILD_PARENT, id, digest), None);
        let (a, b) = (2 + layers.len() as int, 2 + layers.len() + children.len() as int);
        if i < 2 {
        } else if i < a {
            assert(x == layers[i - 2]);
            assert(m.layers.contains(m.layers[i - 2]));
            assert(x == blob_ref_key(m.layers[i - 2], id, digest));
        } else if i < b {
            assert(x == children[i - a]);
            assert(x == edge_key(PREFIX_CHILD_PARENT, id, m.children[i - a].0, digest));
        } else if i < b + subject.len() {
            assert(x == subject[i - b]);
        } else {
            assert(x == keys_of(parents)[i - b - subject.len()]);
            lemma_listed_is_under(es, digest_key(PREFIX_CHILD_PARENT, id, digest), i - b
                - subject.len());
        }
    } else {
        let x = i - own.len();
        assert(ops[i] == removals[x]);
        let j = lemma_tag_removals_ops(id, tags, digest, m, now, x);
        assert(tags.contains(tags[j]));
        let removal = tag_removal(id, tags[j], digest, m, now);
        let y = choose|y: int| 0 <= y < removal.len() && removal[y] == ops[i];
        assert(removal[y] == ops[i]);
    }
}

/// Deleting a manifest touches the manifest's own and nothing else: its record and
/// body, the edges from it to its blobs, its children and its subject, the edges of
/// the indexes that list it, and for each tag that points at it the tag, the reverse
/// edge, an edge that only the tag's name implied, and the two entries of the
/// history. Whatever stands under any other key stays as it was.
pub proof fn a_deleted_manifest_touches_only_its_own(
    es: Seq<Entry>,
    repo: Seq<char>,
    digest: Digest,
    now: nat,
    id: RepoId,
    m: ManifestView,
    k: Seq<u8>,
)
    requires
        ordered(es),
        manifest_delete_plan(es, repo, digest, now) is Ok,
        repo_required(es, repo) == Ok::<RepoId, Fault>(id),
        manifest_lookup(es, id, digest) == Ok::<Option<ManifestView>, Fault>(Some(m)),
        k != digest_key(PREFIX_MANIFEST, id, digest),
        k != digest_key(PREFIX_MANIFEST_BODY, id, digest),
        forall|b: Digest| m.layers.contains(b) ==> k != #[trigger] blob_ref_key(b, id, digest),
        forall|x: int|
            0 <= x < m.children.len() ==> k != edge_key(
                PREFIX_CHILD_PARENT,
                id,
                (#[trigger] m.children[x]).0,
                digest,
            ),
        m.subject matches Some(s) ==> k != edge_key(PREFIX_REFERRER, id, s, digest),
        !has_prefix(k, digest_key(PREFIX_CHILD_PARENT, id, digest)),
        forall|t: Seq<char>|
            table(es).contains_key(#[trigger] manifest_tag_key(id, digest, t)) ==> k != tag_key(
                id,
                t,
            ) && k != manifest_tag_key(id, digest, t) && k != tag_history_key(id, t, now, digest)
                && k != manifest_tag_history_key(id, digest, now, t) && (
            artifact_subject(t) matches Some(s) ==> k != edge_key(PREFIX_REFERRER, id, s, digest)),
    ensures
        same_at(
            applied(table(es), manifest_delete_plan(es, repo, digest, now)->Ok_0.1),
            table(es),
            k,
        ),
{
    let (outcome, ops) = manifest_delete_plan(es, repo, digest, now)->Ok_0;
    let tags = outcome.1;
    assert forall|t: Seq<char>| #[trigger] tags.contains(t) implies table(es).contains_key(
        manifest_tag_key(id, digest, t),
    ) by {
        lemma_tags_are_the_edges(es, id, digest, tags, t);
    }
    assert forall|i: int| 0 <= i < ops.len() implies leaves(#[trigger] ops[i], k) by {
        lemma_op_leaves(es, id, digest, m, tags, now, k, i);
    }
    lemma_left(ops, k);
    applied_by_last_word(table(es), ops, k);
}

/// A key's first byte.
proof fn lemma_first_bytes(id: RepoId, digest: Digest, x: Digest, t: Seq<char>, now: nat)
    ensures
        digest_key(PREFIX_MANIFEST, id, x)[0] == PREFIX_MANIFEST,
        digest_key(PREFIX_MANIFEST_BODY, id, x)[0] == PREFIX_MANIFEST_BODY,
        blob_ref_key(x, id, digest)[0] == PREFIX_BLOB_REF,
        edge_key(PREFIX_CHILD_PARENT, id, x, digest)[0] == PREFIX_CHILD_PARENT,
        digest_key(PREFIX_CHILD_PARENT, id, x)[0] == PREFIX_CHILD_PARENT,
        edge_key(PREFIX_REFERRER, id, x, digest)[0] == PREFIX_REFERRER,
        tag_key(id, t)[0] == PREFIX_TAG,
        manifest_tag_key(id, x, t)[0] == PREFIX_MANIFEST_TAG,
        tag_history_key(id, t, now, x)[0] == PREFIX_TAG_HISTORY,
        manifest_tag_history_key(id, x, now, t)[0] == PREFIX_MANIFEST_TAG_HISTORY,
{
}

/// A prefix's first byte is that of what it is a prefix of.
proof fn lemma_prefix_first(k: Seq<u8>, p: Seq<u8>)
    requires
        has_prefix(k, p),
        p.len() > 0,
    ensures
        k.len() > 0,
        k[0] == p[0],
{
    assert(k.subrange(0, p.len() as int)[0] == p[0]);
}

/// Two edges with different far ends have different keys.
proof fn lemma_far_ends_differ(prefix: u8, id: RepoId, s: Digest, x: Digest, y: Digest, z: Digest)
    requires
        edge_key(prefix, id, s, x) == edge_key(prefix, id, y, z),
    ensures
        s == y,
        x == z,
{
    let k = edge_key(prefix, id, s, x);
    lemma_has_prefix_concat(digest_key(prefix, id, s), x.encoded());
    lemma_has_prefix_concat(digest_key(prefix, id, y), z.encoded());
    crate::keys::digest_scans_are_disjoint(prefix, id, s, id, y, k);
    crate::digest::encoded_digest_is_injective(x, z);
}

/// Two reference edges of one repository with different manifests have different
/// keys.
proof fn lemma_blob_refs_differ(id: RepoId, s: Digest, x: Digest, y: Digest, z: Digest)
    requires
        blob_ref_key(s, id, x) == blob_ref_key(y, id, z),
    ensures
        s == y,
        x == z,
{
    let k = blob_ref_key(s, id, x);
    lemma_has_prefix_concat(blob_refs_in_repo_key(s, id), x.encoded());
    lemma_has_prefix_concat(blob_refs_in_repo_key(y, id), z.encoded());
    crate::keys::blob_scans_in_repos_are_disjoint(s, id, y, id, k);
    crate::digest::encoded_digest_is_injective(x, z);
}

/// Two digests of one repository have different keys, and neither's stands under
/// the other's scan.
proof fn lemma_digest_keys_differ(prefix: u8, id: RepoId, x: Digest, y: Digest)
    requires
        digest_key(prefix, id, x) == digest_key(prefix, id, y),
    ensures
        x == y,
{
    let k = digest_key(prefix, id, x);
    assert(k.subrange(0, k.len() as int) =~= k);
    crate::keys::digest_scans_are_disjoint(prefix, id, x, id, y, k);
}

/// Deleting a manifest leaves every other manifest of the repository as it was: its
/// record and its body, the blobs, children and subject that it names, and the tags
/// that point at it. An index that goes does not take the manifests it lists.
pub proof fn a_deleted_manifest_leaves_the_others(
    es: Seq<Entry>,
    repo: Seq<char>,
    digest: Digest,
    now: nat,
    id: RepoId,
    other: Digest,
    far: Digest,
    tag: Seq<char>,
)
    requires
        ordered(es),
        manifest_delete_plan(es, repo, digest, now) is Ok,
        repo_required(es, repo) == Ok::<RepoId, Fault>(id),
        other != digest,
    ensures
        ({
            let left = applied(table(es), manifest_delete_plan(es, repo, digest, now)->Ok_0.1);
            &&& same_at(left, table(es), digest_key(PREFIX_MANIFEST, id, other))
            &&& same_at(left, table(es), digest_key(PREFIX_MANIFEST_BODY, id, other))
            &&& same_at(left, table(es), blob_ref_key(far, id, other))
            &&& far != digest ==> same_at(
                left,
                table(es),
                edge_key(PREFIX_CHILD_PARENT, id, far, other),
            )
            &&& same_at(left, table(es), edge_key(PREFIX_REFERRER, id, far, other))
            &&& same_at(left, table(es), manifest_tag_key(id, other, tag))
            &&& !table(es).contains_key(manifest_tag_key(id, digest, tag)) ==> same_at(
                left,
                table(es),
                tag_key(id, tag),
            )
        }),
{
    lemma_plan(es, repo, digest, now);
    let m = manifest_lookup(es, id, digest)->Ok_0->0;
    lemma_first_bytes(id, other, far, tag, now);
    lemma_first_bytes(id, other, other, tag, now);
    lemma_first_bytes(id, digest, digest, tag, now);
    let a = digest_key(PREFIX_MANIFEST, id, other);
    let b = digest_key(PREFIX_MANIFEST_BODY, id, other);
    let c = blob_ref_key(far, id, other);
    let d = edge_key(PREFIX_CHILD_PARENT, id, far, other);
    let e = edge_key(PREFIX_REFERRER, id, far, other);
    let f = manifest_tag_key(id, other, tag);
    let g = tag_key(id, tag);
    let scope = digest_key(PREFIX_CHILD_PARENT, id, digest);
    if a == digest_key(PREFIX_MANIFEST, id, digest) {
        lemma_digest_keys_differ(PREFIX_MANIFEST, id, other, digest);
    }
    if b == digest_key(PREFIX_MANIFEST_BODY, id, digest) {
        lemma_digest_keys_differ(PREFIX_MANIFEST_BODY, id, other, digest);
    }
    assert forall|x: Digest| m.layers.contains(x) implies a != #[trigger] blob_ref_key(
        x,
        id,
        digest,
    ) && b != blob_ref_key(x, id, digest) && c != blob_ref_key(x, id, digest) && d != blob_ref_key(
        x,
        id,
        digest,
    ) && e != blob_ref_key(x, id, digest) && f != blob_ref_key(x, id, digest) && g != blob_ref_key(
        x,
        id,
        digest,
    ) by {
        lemma_first_bytes(id, digest, x, tag, now);
        if c == blob_ref_key(x, id, digest) {
            lemma_blob_refs_differ(id, far, other, x, digest);
        }
    }
    assert forall|x: Digest| a != #[trigger] edge_key(PREFIX_CHILD_PARENT, id, x, digest) && b
        != edge_key(PREFIX_CHILD_PARENT, id, x, digest) && c != edge_key(
        PREFIX_CHILD_PARENT,
        id,
        x,
        digest,
    ) && d != edge_key(PREFIX_CHILD_PARENT, id, x, digest) && e != edge_key(
        PREFIX_CHILD_PARENT,
        id,
        x,
        digest,
    ) && f != edge_key(PREFIX_CHILD_PARENT, id, x, digest) && g != edge_key(
        PREFIX_CHILD_PARENT,
        id,
        x,
        digest,
    ) by {
        lemma_first_bytes(id, digest, x, tag, now);
        if d == edge_key(PREFIX_CHILD_PARENT, id, x, digest) {
            lemma_far_ends_differ(PREFIX_CHILD_PARENT, id, far, other, x, digest);
        }
    }
    assert forall|x: Digest| a != #[trigger] edge_key(PREFIX_REFERRER, id, x, digest) && b
        != edge_key(PREFIX_REFERRER, id, x, digest) && c != edge_key(
        PREFIX_REFERRER,
        id,
        x,
        digest,
    ) && d != edge_key(PREFIX_REFERRER, id, x, digest) && e != edge_key(
        PREFIX_REFERRER,
        id,
        x,
        digest,
    ) && f != edge_key(PREFIX_REFERRER, id, x, digest) && g != edge_key(
        PREFIX_REFERRER,
        id,
        x,
        digest,
    ) by {
        lemma_first_bytes(id, digest, x, tag, now);
        if e == edge_key(PREFIX_REFERRER, id, x, digest) {
            lemma_far_ends_differ(PREFIX_REFERRER, id, far, other, x, digest);
        }
    }
    assert(!has_prefix(a, scope) && !has_prefix(b, scope) && !has_prefix(c, scope) && !has_prefix(
        e,
        scope,
    ) && !has_prefix(f, scope) && !has_prefix(g, scope)) by {
        if has_prefix(a, scope) {
            lemma_prefix_first(a, scope);
        }
        if has_prefix(b, scope) {
            lemma_prefix_first(b, scope);
        }
        if has_prefix(c, scope) {
            lemma_prefix_first(c, scope);
        }
        if has_prefix(e, scope) {
            lemma_prefix_first(e, scope);
        }
        if has_prefix(f, scope) {
            lemma_prefix_first(f, scope);
        }
        if has_prefix(g, scope) {
            lemma_prefix_first(g, scope);
        }
    }
    if far != digest && has_prefix(d, scope) {
        lemma_has_prefix_concat(digest_key(PREFIX_CHILD_PARENT, id, far), other.encoded());
        crate::keys::digest_scans_are_disjoint(PREFIX_CHILD_PARENT, id, far, id, digest, d);
    }
    assert forall|t: Seq<char>| #![trigger manifest_tag_key(id, digest, t)]
        f != manifest_tag_key(id, digest, t) && f != tag_key(id, t) && f != tag_history_key(
            id,
            t,
            now,
            digest,
        ) && f != manifest_tag_history_key(id, digest, now, t) && g != manifest_tag_key(
            id,
            digest,
            t,
        ) && g != tag_history_key(id, t, now, digest) && g != manifest_tag_history_key(
            id,
            digest,
            now,
            t,
        ) && (g == tag_key(id, t) ==> t == tag) by {
        lemma_first_bytes(id, digest, digest, t, now);
        if f == manifest_tag_key(id, digest, t) {
            lemma_has_prefix_concat(digest_key(PREFIX_MANIFEST_TAG, id, other), encode_utf8(tag));
            lemma_has_prefix_concat(digest_key(PREFIX_MANIFEST_TAG, id, digest), encode_utf8(t));
            crate::keys::digest_scans_are_disjoint(
                PREFIX_MANIFEST_TAG,
                id,
                other,
                id,
                digest,
                f,
            );
        }
        if g == tag_key(id, t) {
            crate::keys::tag_key_injective(id, tag, id, t);
        }
    }
    assert forall|t: Seq<char>| #![trigger manifest_tag_key(id, digest, t)]
        tag_key(id, t)[0] == PREFIX_TAG && manifest_tag_key(id, digest, t)[0] == PREFIX_MANIFEST_TAG
            && tag_history_key(id, t, now, digest)[0] == PREFIX_TAG_HISTORY
            && manifest_tag_history_key(id, digest, now, t)[0] == PREFIX_MANIFEST_TAG_HISTORY by {
        lemma_first_bytes(id, digest, digest, t, now);
    }
    a_deleted_manifest_touches_only_its_own(es, repo, digest, now, id, m, a);
    a_deleted_manifest_touches_only_its_own(es, repo, digest, now, id, m, b);
    a_deleted_manifest_touches_only_its_own(es, repo, digest, now, id, m, c);
    if far != digest {
        a_deleted_manifest_touches_only_its_own(es, repo, digest, now, id, m, d);
    }
    a_deleted_manifest_touches_only_its_own(es, repo, digest, now, id, m, e);
    a_deleted_manifest_touches_only_its_own(es, repo, digest, now, id, m, f);
    if !table(es).contains_key(manifest_tag_key(id, digest, tag)) {
        a_deleted_manifest_touches_only_its_own(es, repo, digest, now, id, m, g);
    }
}

/// A deletion answers with the digest and with the tags that pointed at it, those
/// and no others; for each of them the history says, in both directions, that it
/// went at this moment, and with what it was.
pub proof fn a_deletion_names_the_tags_it_took(
    es: Seq<Entry>,
    repo: Seq<char>,
    digest: Digest,
    now: nat,
    id: RepoId,
    m: ManifestView,
    tag: Seq<char>,
)
    requires
        ordered(es),
        manifest_delete_plan(es, repo, digest, now) is Ok,
        repo_required(es, repo) == Ok::<RepoId, Fault>(id),
        manifest_lookup(es, id, digest) == Ok::<Option<ManifestView>, Fault>(Some(m)),
    ensures
        ({
            let (outcome, ops) = manifest_delete_plan(es, repo, digest, now)->Ok_0;
            let left = applied(table(es), ops);
            let event = event_bytes(1, m.media_type, m.size);
            &&& outcome.0 == digest
            &&& outcome.1.contains(tag) <==> table(es).contains_key(
                manifest_tag_key(id, digest, tag),
            )
            &&& outcome.1.contains(tag) ==> !left.contains_key(tag_key(id, tag))
                && !left.contains_key(manifest_tag_key(id, digest, tag)) && left.contains_key(
                tag_history_key(id, tag, now, digest),
            ) && left[tag_history_key(id, tag, now, digest)] == event && left.contains_key(
                manifest_tag_history_key(id, digest, now, tag),
            ) && left[manifest_tag_history_key(id, digest, now, tag)] == event && (
            artifact_subject(tag) matches Some(s) ==> !left.contains_key(
                edge_key(PREFIX_REFERRER, id, s, digest),
            ))
        }),
{
    let (outcome, ops) = manifest_delete_plan(es, repo, digest, now)->Ok_0;
    let tags = outcome.1;
    let own = manifest_keys(es, id, digest, m);
    lemma_tags_are_the_edges(es, id, digest, tags, tag);
    if tags.contains(tag) {
        let j = choose|j: int| 0 <= j < tags.len() && tags[j] == tag;
        let removal = tag_removal(id, tag, digest, m, now);
        let n = removal.len() as int;
        lemma_first_bytes(id, digest, digest, tag, now);
        assert(removal[0] == OpView::Delete(tag_key(id, tag)));
        assert(removal[1] == OpView::Delete(manifest_tag_key(id, digest, tag)));
        let x = lemma_tag_removals_have(id, tags, digest, m, now, j, 0);
        assert(ops[own.len() + x] == removal[0]);
        lemma_deleted_key_is_gone(es, id, digest, m, tags, now, own.len() + x, tag_key(id, tag));
        let y = lemma_tag_removals_have(id, tags, digest, m, now, j, 1);
        assert(ops[own.len() + y] == removal[1]);
        lemma_deleted_key_is_gone(
            es,
            id,
            digest,
            m,
            tags,
            now,
            own.len() + y,
            manifest_tag_key(id, digest, tag),
        );
        if let Some(s) = artifact_subject(tag) {
            let e = edge_key(PREFIX_REFERRER, id, s, digest);
            lemma_first_bytes(id, digest, s, tag, now);
            assert(removal[2] == OpView::Delete(e));
            let z = lemma_tag_removals_have(id, tags, digest, m, now, j, 2);
            assert(ops[own.len() + z] == removal[2]);
            lemma_deleted_key_is_gone(es, id, digest, m, tags, now, own.len() + z, e);
        }
        let event = event_bytes(1, m.media_type, m.size);
        let (p, q) = (
            tag_history_key(id, tag, now, digest),
            manifest_tag_history_key(id, digest, now, tag),
        );
        assert(removal[n - 2] == OpView::Put(p, event));
        assert(removal[n - 1] == OpView::Put(q, event));
        let u = lemma_tag_removals_have(id, tags, digest, m, now, j, n - 2);
        let v = lemma_tag_removals_have(id, tags, digest, m, now, j, n - 1);
        assert(ops[own.len() + u] == removal[n - 2]);
        assert(ops[own.len() + v] == removal[n - 1]);
        assert forall|i: int| 0 <= i < ops.len() implies puts(#[trigger] ops[i], p, event)
            || leaves(ops[i], p) by {
            lemma_history_op(es, id, digest, m, tags, now, i, p);
        }
        assert forall|i: int| 0 <= i < ops.len() implies puts(#[trigger] ops[i], q, event)
            || leaves(ops[i], q) by {
            lemma_history_op(es, id, digest, m, tags, now, i, q);
        }
        lemma_there(ops, p, event, own.len() + u);
        lemma_there(ops, q, event, own.len() + v);
        applied_by_last_word(table(es), ops, p);
        applied_by_last_word(table(es), ops, q);
    }
}

/// `op` stores `v` against `k`.
spec fn puts(op: OpView, k: Seq<u8>, v: Seq<u8>) -> bool {
    op == OpView::Put(k, v)
}

/// A batch that stores a value against a key, and otherwise does not speak of it,
/// leaves the value there.
proof fn lemma_there(ops: Seq<OpView>, k: Seq<u8>, v: Seq<u8>, at: int)
    requires
        0 <= at < ops.len(),
        puts(ops[at], k, v),
        forall|i: int| 0 <= i < ops.len() ==> puts(#[trigger] ops[i], k, v) || leaves(ops[i], k),
    ensures
        last_word(ops, k) == Some(Some(v)),
    decreases ops.len(),
{
    let n = ops.len() - 1;
    assert(puts(ops[n], k, v) || leaves(ops[n], k));
    if !puts(ops[n], k, v) {
        let head = ops.drop_last();
        assert forall|i: int| 0 <= i < head.len() implies puts(#[trigger] head[i], k, v) || leaves(
            head[i],
            k,
        ) by {
            assert(ops[i] == head[i]);
        }
        lemma_there(head, k, v, at);
    }
}

/// What one mutation of a manifest's deletion says of a key of the history: the
/// event, or nothing.
proof fn lemma_history_op(
    es: Seq<Entry>,
    id: RepoId,
    digest: Digest,
    m: ManifestView,
    tags: Seq<Seq<char>>,
    now: nat,
    i: int,
    k: Seq<u8>,
)
    requires
        0 <= i < (deletions(manifest_keys(es, id, digest, m)) + tag_removals(
            id,
            tags,
            digest,
            m,
            now,
        )).len(),
        k.len() > 0,
        k[0] == PREFIX_TAG_HISTORY || k[0] == PREFIX_MANIFEST_TAG_HISTORY,
    ensures
        ({
            let op = (deletions(manifest_keys(es, id, digest, m)) + tag_removals(
                id,
                tags,
                digest,
                m,
                now,
            ))[i];
            puts(op, k, event_bytes(1, m.media_type, m.size)) || leaves(op, k)
        }),
{
    let own = manifest_keys(es, id, digest, m);
    let removals = tag_removals(id, tags, digest, m, now);
    let ops = deletions(own) + removals;
    lemma_plan_op(es, id, digest, m, tags, now, i);
    if let OpView::Delete(x) = ops[i] {
        if x == k {
            if exists|b: Digest| k == #[trigger] blob_ref_key(b, id, digest) {
                let b = choose|b: Digest| k == #[trigger] blob_ref_key(b, id, digest);
                lemma_blob_ref_first(b, id, digest);
            } else if exists|s: Digest| k == #[trigger] edge_key(PREFIX_REFERRER, id, s, digest) {
                let s = choose|s: Digest| k == #[trigger] edge_key(PREFIX_REFERRER, id, s, digest);
                lemma_edge_key(id, s, digest);
                lemma_under_first(k, PREFIX_REFERRER, id);
            } else if under(k, PREFIX_MANIFEST, id) {
                lemma_under_first(k, PREFIX_MANIFEST, id);
            } else if under(k, PREFIX_MANIFEST_BODY, id) {
                lemma_under_first(k, PREFIX_MANIFEST_BODY, id);
            } else if under(k, PREFIX_CHILD_PARENT, id) {
                lemma_under_first(k, PREFIX_CHILD_PARENT, id);
            } else if under(k, PREFIX_TAG, id) {
                lemma_under_first(k, PREFIX_TAG, id);
            } else {
                lemma_under_first(k, PREFIX_MANIFEST_TAG, id);
            }
        }
    } else {
        if i < own.len() {
            assert(ops[i] == OpView::Delete(own[i]));
        }
        let x = i - own.len();
        assert(ops[i] == removals[x]);
        let j = lemma_tag_removals_ops(id, tags, digest, m, now, x);
        let removal = tag_removal(id, tags[j], digest, m, now);
        let y = choose|y: int| 0 <= y < removal.len() && removal[y] == ops[i];
        assert(removal[y] == ops[i]);
    }
}

/// Deleting is refused where there is nothing to delete, and only then: a name that
/// stands for no repository is unknown, a manifest without a record is unknown, and
/// one whose record and tags can be read is deleted.
pub proof fn a_manifest_is_deleted_where_it_is(
    es: Seq<Entry>,
    repo: Seq<char>,
    digest: Digest,
    now: nat,
    id: RepoId,
)
    ensures
        lookup(es, repo_name_key(repo)) is None ==> manifest_delete_plan(es, repo, digest, now)
            == Err::<((Digest, Seq<Seq<char>>), Seq<OpView>), Fault>(Fault::NameUnknown(repo)),
        lookup(es, repo_name_key(repo)) == Some(repo_bytes(id)) && lookup(
            es,
            digest_key(PREFIX_MANIFEST, id, digest),
        ) is None ==> manifest_delete_plan(es, repo, digest, now) == Err::<
            ((Digest, Seq<Seq<char>>), Seq<OpView>),
            Fault,
        >(Fault::ManifestUnknown(repo, digest.text())),
        lookup(es, repo_name_key(repo)) == Some(repo_bytes(id)) && (lookup(
            es,
            digest_key(PREFIX_MANIFEST, id, digest),
        ) matches Some(b) && manifest_of(b) is Some) && tags_pointing_at(es, id, digest) is Ok
            ==> manifest_delete_plan(es, repo, digest, now) is Ok,
{
    crate::keys::repo_bytes_round_trip(id);
}

/// Deleting a blob's reference touches the repository's own membership and its own
/// edges to that blob, and nothing else. It says whether the blob was a member, and
/// how many edges went.
pub proof fn a_deleted_blob_reference_touches_only_its_own(
    es: Seq<Entry>,
    repo: Seq<char>,
    digest: Digest,
    id: RepoId,
    k: Seq<u8>,
)
    requires
        blob_reference_delete_plan(es, repo, digest) is Ok,
        repo_required(es, repo) == Ok::<RepoId, Fault>(id),
        k != digest_key(PREFIX_REPO_BLOB, id, digest),
        !has_prefix(k, blob_refs_in_repo_key(digest, id)),
    ensures
        same_at(
            applied(table(es), blob_reference_delete_plan(es, repo, digest)->Ok_0.1),
            table(es),
            k,
        ),
        blob_reference_delete_plan(es, repo, digest)->Ok_0.0.0 == digest,
        blob_reference_delete_plan(es, repo, digest)->Ok_0.0.2 == listing(
            es,
            blob_refs_in_repo_key(digest, id),
            None,
        ).len(),
{
    let (outcome, ops) = blob_reference_delete_plan(es, repo, digest)->Ok_0;
    let scope = blob_refs_in_repo_key(digest, id);
    let refs = keys_of(listing(es, scope, None));
    assert forall|i: int| 0 <= i < ops.len() implies leaves(#[trigger] ops[i], k) by {
        if i < refs.len() {
            lemma_listed_is_under(es, scope, i);
            assert(ops[i] == OpView::Delete(refs[i]));
        } else {
            assert(ops[i] == OpView::Delete(digest_key(PREFIX_REPO_BLOB, id, digest)));
        }
    }
    lemma_left(ops, k);
    applied_by_last_word(table(es), ops, k);
}

/// A blob's reference can be deleted from a repository exactly where the repository
/// holds the blob or refers to it.
pub proof fn a_blob_reference_is_deleted_where_it_is(
    es: Seq<Entry>,
    repo: Seq<char>,
    digest: Digest,
    id: RepoId,
)
    requires
        ordered(es),
        lookup(es, repo_name_key(repo)) == Some(repo_bytes(id)),
    ensures
        lookup(es, digest_key(PREFIX_REPO_BLOB, id, digest)) is Some ==> blob_reference_delete_plan(
            es,
            repo,
            digest,
        ) is Ok,
        (exists|i: int|
            0 <= i < es.len() && has_prefix(
                #[trigger] es[i].0,
                blob_refs_in_repo_key(digest, id),
            )) ==> blob_reference_delete_plan(es, repo, digest) is Ok,
        (forall|i: int|
            0 <= i < es.len() ==> !has_prefix(
                #[trigger] es[i].0,
                blob_refs_in_repo_key(digest, id),
            ) && !has_prefix(es[i].0, digest_key(PREFIX_REPO_BLOB, id, digest)))
            ==> blob_reference_delete_plan(es, repo, digest) == Err::<
            ((Digest, bool, nat), Seq<OpView>),
            Fault,
        >(Fault::BlobUnknown(repo, digest)),
{
    crate::keys::repo_bytes_round_trip(id);
    let scope = blob_refs_in_repo_key(digest, id);
    let member = digest_key(PREFIX_REPO_BLOB, id, digest);
    crate::meta::engine::lemma_listing_is_empty_iff_no_key(es, scope);
    if lookup(es, member) is Some {
        lemma_table_key_is_entry(es, member);
        let j = choose|j: int| 0 <= j < es.len() && #[trigger] es[j] == (member, table(es)[member]);
        assert(member.subrange(0, member.len() as int) =~= member);
        assert(has_prefix(es[j].0, member));
    }
}

} // verus!
