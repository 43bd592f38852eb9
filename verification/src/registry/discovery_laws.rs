//! What the pages of the discovery queries show, and what they do not leave out.
use vstd::prelude::*;
use vstd::utf8::*;

use crate::bytes::{after, has_prefix, lemma_has_prefix_concat, lex_common_head, lex_lt};
use crate::digest::Digest;
use crate::keys::{
    blob_ref_key, blob_refs_key, digest_key, edge_key, manifest_tag_key, repo_head, repo_name_key,
    tag_key, PREFIX_CHILD_PARENT, PREFIX_MANIFEST, PREFIX_MANIFEST_TAG, PREFIX_REPO_BLOB,
    PREFIX_REPO_BY_NAME, PREFIX_TAG,
};
use crate::meta::engine::{
    in_range, lemma_listing, lemma_listing_is_complete, lemma_lookup_at, lemma_table_key_is_entry,
    listing, lookup, ordered, resuming_a_scan_continues_it, table, Entry,
};
use crate::registry::codec::{manifest_of, number_pair_wire};
use crate::registry::discovery::{
    blob_size_in, count_manifests_answer, count_tags_answer, digests_listed, edges_listed,
    list_manifests_answer, manifest_in, manifest_key_in, manifests_referencing_blob_answer, name_in,
    parent_in, parents_of_manifest_answer, reference_in, repo_usage_answer, repos_listed,
    search_repos_answer, tags_listed, untagged_manifests_answer, wrapped_sum,
};
use crate::registry::error::Fault;
use crate::registry::registry::{
    collected, lemma_collected_each, repo_name_of, repo_required, shown,
};
use crate::registry::suffix::{digest_at, suffixes_match_the_encoders};
use crate::types::{ManifestView, RepoId};

verus! {

/// A page of a scan holds what is stored, under the prefix and behind the cursor, in
/// key order. What it leaves out stands behind its last row, and it is then full.
#[verifier::rlimit(40)]
proof fn lemma_page(es: Seq<Entry>, prefix: Seq<u8>, cursor: Option<Seq<u8>>, limit: nat)
    requires
        ordered(es),
    ensures
        ({
            let list = listing(es, prefix, cursor);
            let rows = shown(list, limit);
            &&& ordered(rows)
            &&& rows.len() <= limit
            &&& forall|i: int|
                0 <= i < rows.len() ==> in_range((#[trigger] rows[i]).0, prefix, cursor) && lookup(
                    es,
                    rows[i].0,
                ) == Some(rows[i].1)
            &&& forall|k: Seq<u8>|
                lookup(es, k) is Some && #[trigger] in_range(k, prefix, cursor) ==> {
                    ||| exists|i: int| 0 <= i < rows.len() && (#[trigger] rows[i]).0 == k
                    ||| limit < list.len() && (limit > 0 ==> lex_lt(list[limit - 1].0, k))
                }
        }),
{
    let list = listing(es, prefix, cursor);
    let rows = shown(list, limit);
    lemma_listing(es, prefix, cursor);
    assert forall|i: int| 0 <= i < list.len() implies in_range(
        (#[trigger] list[i]).0,
        prefix,
        cursor,
    ) && lookup(es, list[i].0) == Some(list[i].1) by {
        assert(in_range(list[i].0, prefix, cursor));
        assert(es.contains(list[i]));
        let x = choose|x: int| 0 <= x < es.len() && es[x] == list[i];
        lemma_lookup_at(es, x);
    }
    assert(forall|i: int| 0 <= i < rows.len() ==> rows[i] == list[i]);
    assert forall|i: int, j: int| 0 <= i < j < rows.len() implies lex_lt(
        #[trigger] rows[i].0,
        #[trigger] rows[j].0,
    ) by {
        assert(lex_lt(list[i].0, list[j].0));
    }
    assert forall|k: Seq<u8>| lookup(es, k) is Some && #[trigger] in_range(k, prefix, cursor) implies {
        ||| exists|i: int| 0 <= i < rows.len() && (#[trigger] rows[i]).0 == k
        ||| limit < list.len() && (limit > 0 ==> lex_lt(list[limit - 1].0, k))
    } by {
        lemma_table_key_is_entry(es, k);
        let j = choose|j: int| 0 <= j < es.len() && #[trigger] es[j] == (k, table(es)[k]);
        lemma_listing_is_complete(es, prefix, cursor, j);
        let x = choose|x: int| 0 <= x < list.len() && list[x] == es[j];
        if x < rows.len() {
            assert(rows[x].0 == k);
        } else if limit > 0 {
            assert(lex_lt(list[limit - 1].0, list[x].0));
        }
    }
}

// --- repositories -----------------------------------------------------------------

/// A search shows repositories that are there, whose names begin with what was asked
/// for and stand behind the cursor, in byte order and no more than were asked for. It
/// leaves none out: one that it does not show stands behind the place where the next
/// page begins, which is its own last name.
#[verifier::rlimit(40)]
pub proof fn a_search_leaves_no_repository_out(
    es: Seq<Entry>,
    prefix: Seq<char>,
    start: Option<Seq<char>>,
    limit: nat,
    i: int,
    j: int,
    name: Seq<char>,
)
    requires
        ordered(es),
        search_repos_answer(es, prefix, start, limit) is Ok,
    ensures
        ({
            let (names, next) = search_repos_answer(es, prefix, start, limit)->Ok_0;
            &&& names.len() <= limit
            &&& 0 <= i < names.len() ==> lookup(es, repo_name_key(names[i])) is Some && has_prefix(
                encode_utf8(names[i]),
                encode_utf8(prefix),
            ) && (start matches Some(s) ==> lex_lt(encode_utf8(s), encode_utf8(names[i])))
            &&& 0 <= i < j < names.len() ==> lex_lt(encode_utf8(names[i]), encode_utf8(names[j]))
            &&& next is Some ==> names.len() > 0 && next == Some(names.last())
            &&& limit > 0 && lookup(es, repo_name_key(name)) is Some && has_prefix(
                encode_utf8(name),
                encode_utf8(prefix),
            ) && (start matches Some(s) ==> lex_lt(encode_utf8(s), encode_utf8(name)))
                ==> names.contains(name) || (next matches Some(n) && lex_lt(
                encode_utf8(n),
                encode_utf8(name),
            ))
        }),
{
    let (names, next) = search_repos_answer(es, prefix, start, limit)->Ok_0;
    let scope = repo_name_key(prefix);
    let cursor = match start {
        Some(s) => Some(repo_name_key(s)),
        None => None,
    };
    let list = repos_listed(es, prefix, start);
    let rows = shown(list, limit);
    let read = |e: Entry| name_in(e);
    lemma_page(es, scope, cursor, limit);
    lemma_collected_each(rows, read);
    assert forall|x: int| 0 <= x < rows.len() implies (#[trigger] rows[x]).0 == repo_name_key(
        names[x],
    ) by {
        assert(read(rows[x]) == Ok::<Seq<char>, Fault>(names[x]));
        let k = rows[x].0;
        assert(in_range(k, scope, cursor));
        assert(k.subrange(0, scope.len() as int)[0] == scope[0]);
        decode_utf8_encode_utf8(after(k, 1));
        assert(k =~= seq![PREFIX_REPO_BY_NAME] + after(k, 1));
    }
    if 0 <= i < names.len() {
        assert(rows[i].0 == repo_name_key(names[i]));
        assert(in_range(rows[i].0, scope, cursor));
        lemma_name_prefix(names[i], prefix);
        if let Some(s) = start {
            lex_common_head(seq![PREFIX_REPO_BY_NAME], encode_utf8(s), encode_utf8(names[i]));
        }
        if i < j < names.len() {
            assert(rows[j].0 == repo_name_key(names[j]));
            assert(lex_lt(rows[i].0, rows[j].0));
            lex_common_head(
                seq![PREFIX_REPO_BY_NAME],
                encode_utf8(names[i]),
                encode_utf8(names[j]),
            );
        }
    }
    let k = repo_name_key(name);
    if limit > 0 && lookup(es, k) is Some && has_prefix(encode_utf8(name), encode_utf8(prefix)) && (
    start matches Some(s) ==> lex_lt(encode_utf8(s), encode_utf8(name))) {
        lemma_name_prefix(name, prefix);
        if let Some(s) = start {
            lex_common_head(seq![PREFIX_REPO_BY_NAME], encode_utf8(s), encode_utf8(name));
        }
        assert(in_range(k, scope, cursor));
        if exists|x: int| 0 <= x < rows.len() && (#[trigger] rows[x]).0 == k {
            let x = choose|x: int| 0 <= x < rows.len() && (#[trigger] rows[x]).0 == k;
            crate::keys::repo_name_key_injective(names[x], name);
            assert(names[x] == name);
        } else {
            assert(rows[limit - 1] == list[limit - 1]);
            assert(rows[limit - 1].0 == repo_name_key(names[limit - 1]));
            lex_common_head(
                seq![PREFIX_REPO_BY_NAME],
                encode_utf8(names[limit - 1]),
                encode_utf8(name),
            );
        }
    }
}

/// A name's key begins as the name does.
proof fn lemma_name_prefix(name: Seq<char>, prefix: Seq<char>)
    ensures
        has_prefix(repo_name_key(name), repo_name_key(prefix)) == has_prefix(
            encode_utf8(name),
            encode_utf8(prefix),
        ),
{
    let (k, p) = (repo_name_key(name), repo_name_key(prefix));
    let (a, b) = (encode_utf8(name), encode_utf8(prefix));
    if has_prefix(k, p) {
        assert(a.subrange(0, b.len() as int) =~= b) by {
            assert forall|i: int| 0 <= i < b.len() implies a[i] == b[i] by {
                assert(k.subrange(0, p.len() as int)[i + 1] == p[i + 1]);
            }
        }
    }
    if has_prefix(a, b) {
        assert(k.subrange(0, p.len() as int) =~= p) by {
            assert forall|i: int| 0 <= i < p.len() implies k[i] == p[i] by {
                if i > 0 {
                    assert(a.subrange(0, b.len() as int)[i - 1] == b[i - 1]);
                }
            }
        }
    }
}

// --- manifests --------------------------------------------------------------------

/// Whatever stands under a repository's scan of one kind is keyed by a digest.
pub open spec fn keyed_by_digest(es: Seq<Entry>, prefix: u8, id: RepoId) -> bool {
    forall|i: int|
        0 <= i < es.len() && has_prefix(#[trigger] es[i].0, repo_head(prefix, id)) ==> exists|
            d: Digest,
        | es[i].0 == #[trigger] digest_key(prefix, id, d)
}

/// A row of a digest-keyed scan is some digest's, which can be read off its key.
proof fn lemma_row(es: Seq<Entry>, prefix: u8, id: RepoId, start: Option<Digest>, i: int) -> (d:
    Digest)
    requires
        ordered(es),
        keyed_by_digest(es, prefix, id),
        0 <= i < digests_listed(es, prefix, id, start).len(),
    ensures
        digests_listed(es, prefix, id, start)[i].0 == digest_key(prefix, id, d),
        digest_at(digests_listed(es, prefix, id, start)[i].0, 5) == Some(d),
{
    let list = digests_listed(es, prefix, id, start);
    let scope = repo_head(prefix, id);
    let cursor = match start {
        Some(d) => Some(digest_key(prefix, id, d)),
        None => None,
    };
    lemma_listing(es, scope, cursor);
    assert(in_range(list[i].0, scope, cursor));
    assert(es.contains(list[i]));
    let x = choose|x: int| 0 <= x < es.len() && es[x] == list[i];
    assert(has_prefix(es[x].0, scope));
    let d = choose|d: Digest| es[x].0 == #[trigger] digest_key(prefix, id, d);
    suffixes_match_the_encoders(prefix, id, d, d, Seq::empty());
    d
}

/// A page of manifests shows records that are stored, no more than were asked for. It
/// leaves none out: the record of a manifest behind the cursor that it does not show
/// stands behind the place where the next page begins.
#[verifier::rlimit(40)]
pub proof fn a_list_leaves_no_manifest_out(
    es: Seq<Entry>,
    repo: Seq<char>,
    id: RepoId,
    start: Option<Digest>,
    limit: nat,
    i: int,
    d: Digest,
)
    requires
        ordered(es),
        repo_required(es, repo) == Ok::<RepoId, Fault>(id),
        keyed_by_digest(es, PREFIX_MANIFEST, id),
        list_manifests_answer(es, repo, start, limit) is Ok,
    ensures
        ({
            let (ms, next) = list_manifests_answer(es, repo, start, limit)->Ok_0;
            &&& ms.len() <= limit
            &&& 0 <= i < ms.len() ==> exists|x: Digest|
                lookup(es, #[trigger] digest_key(PREFIX_MANIFEST, id, x)) matches Some(b)
                    && manifest_of(b) == Some(ms[i]) && (start matches Some(s) ==> lex_lt(
                    s.encoded(),
                    x.encoded(),
                ))
            &&& limit > 0 && lookup(es, digest_key(PREFIX_MANIFEST, id, d)) is Some && (
            start matches Some(s) ==> lex_lt(s.encoded(), d.encoded())) ==> {
                ||| (manifest_of(lookup(es, digest_key(PREFIX_MANIFEST, id, d))->0) matches Some(m)
                    && ms.contains(m))
                ||| next matches Some(n) && lex_lt(n.encoded(), d.encoded())
            }
        }),
{
    let (ms, next) = list_manifests_answer(es, repo, start, limit)->Ok_0;
    let scope = repo_head(PREFIX_MANIFEST, id);
    let cursor = match start {
        Some(s) => Some(digest_key(PREFIX_MANIFEST, id, s)),
        None => None,
    };
    let list = digests_listed(es, PREFIX_MANIFEST, id, start);
    let rows = shown(list, limit);
    let read = |e: Entry| manifest_in(e);
    lemma_page(es, scope, cursor, limit);
    lemma_collected_each(rows, read);
    if 0 <= i < ms.len() {
        assert(rows[i] == list[i]);
        assert(read(rows[i]) == Ok::<ManifestView, Fault>(ms[i]));
        let x = lemma_row(es, PREFIX_MANIFEST, id, start, i);
        assert(in_range(rows[i].0, scope, cursor));
        if let Some(s) = start {
            lex_common_head(scope, s.encoded(), x.encoded());
        }
        assert(lookup(es, digest_key(PREFIX_MANIFEST, id, x)) == Some(rows[i].1));
    }
    let k = digest_key(PREFIX_MANIFEST, id, d);
    if limit > 0 && lookup(es, k) is Some && (start matches Some(s) ==> lex_lt(
        s.encoded(),
        d.encoded(),
    )) {
        lemma_has_prefix_concat(scope, d.encoded());
        if let Some(s) = start {
            lex_common_head(scope, s.encoded(), d.encoded());
        }
        assert(in_range(k, scope, cursor));
        if exists|x: int| 0 <= x < rows.len() && (#[trigger] rows[x]).0 == k {
            let x = choose|x: int| 0 <= x < rows.len() && (#[trigger] rows[x]).0 == k;
            assert(read(rows[x]) == Ok::<ManifestView, Fault>(ms[x]));
            assert(ms.contains(ms[x]));
        } else {
            let n = lemma_row(es, PREFIX_MANIFEST, id, start, limit - 1);
            lex_common_head(scope, n.encoded(), d.encoded());
        }
    }
}

/// A page of untagged manifests shows manifests that are there and that no tag points
/// at. It leaves none out: one that it does not show stands behind the place where the
/// next page begins.
#[verifier::rlimit(40)]
pub proof fn a_list_leaves_no_untagged_manifest_out(
    es: Seq<Entry>,
    repo: Seq<char>,
    id: RepoId,
    start: Option<Digest>,
    limit: nat,
    i: int,
    d: Digest,
    tag: Seq<char>,
)
    requires
        ordered(es),
        repo_required(es, repo) == Ok::<RepoId, Fault>(id),
        keyed_by_digest(es, PREFIX_MANIFEST, id),
        untagged_manifests_answer(es, repo, start, limit) is Ok,
    ensures
        ({
            let (ds, next) = untagged_manifests_answer(es, repo, start, limit)->Ok_0;
            &&& ds.len() <= limit
            &&& 0 <= i < ds.len() ==> lookup(es, digest_key(PREFIX_MANIFEST, id, ds[i])) is Some
                && lookup(es, manifest_tag_key(id, ds[i], tag)) is None
            &&& limit > 0 && lookup(es, digest_key(PREFIX_MANIFEST, id, d)) is Some && (
            start matches Some(s) ==> lex_lt(s.encoded(), d.encoded())) && (forall|x: int|
                0 <= x < es.len() ==> !has_prefix(
                    #[trigger] es[x].0,
                    digest_key(PREFIX_MANIFEST_TAG, id, d),
                )) ==> ds.contains(d) || (next matches Some(n) && lex_lt(n.encoded(), d.encoded()))
        }),
{
    let (ds, next) = untagged_manifests_answer(es, repo, start, limit)->Ok_0;
    let scope = repo_head(PREFIX_MANIFEST, id);
    let cursor = match start {
        Some(s) => Some(digest_key(PREFIX_MANIFEST, id, s)),
        None => None,
    };
    let list = digests_listed(es, PREFIX_MANIFEST, id, start);
    let rows = shown(list, limit);
    let read = |e: Entry| manifest_key_in(e);
    let bare = |x: Digest| crate::registry::discovery::is_untagged(es, id, x);
    lemma_page(es, scope, cursor, limit);
    lemma_collected_each(rows, read);
    let all = collected(rows, read)->Ok_0;
    assert(ds == all.filter(bare));
    all.lemma_filter_len(bare);
    assert forall|x: int| 0 <= x < rows.len() implies (#[trigger] rows[x]).0 == digest_key(
        PREFIX_MANIFEST,
        id,
        all[x],
    ) by {
        assert(rows[x] == list[x]);
        assert(read(rows[x]) == Ok::<Digest, Fault>(all[x]));
        let y = lemma_row(es, PREFIX_MANIFEST, id, start, x);
    }
    if 0 <= i < ds.len() {
        all.lemma_filter_pred(bare, i);
        assert(ds.contains(ds[i]));
        all.lemma_filter_contains_rev(bare, ds[i]);
        let x = choose|x: int| 0 <= x < all.len() && all[x] == ds[i];
        assert(rows[x].0 == digest_key(PREFIX_MANIFEST, id, all[x]));
        assert(in_range(rows[x].0, scope, cursor));
        let k = manifest_tag_key(id, ds[i], tag);
        if lookup(es, k) is Some {
            lemma_table_key_is_entry(es, k);
            let j = choose|j: int| 0 <= j < es.len() && #[trigger] es[j] == (k, table(es)[k]);
            lemma_has_prefix_concat(digest_key(PREFIX_MANIFEST_TAG, id, ds[i]), encode_utf8(tag));
            assert(has_prefix(es[j].0, digest_key(PREFIX_MANIFEST_TAG, id, ds[i])));
        }
    }
    let k = digest_key(PREFIX_MANIFEST, id, d);
    if limit > 0 && lookup(es, k) is Some && (start matches Some(s) ==> lex_lt(
        s.encoded(),
        d.encoded(),
    )) && bare(d) {
        lemma_has_prefix_concat(scope, d.encoded());
        if let Some(s) = start {
            lex_common_head(scope, s.encoded(), d.encoded());
        }
        assert(in_range(k, scope, cursor));
        if exists|x: int| 0 <= x < rows.len() && (#[trigger] rows[x]).0 == k {
            let x = choose|x: int| 0 <= x < rows.len() && (#[trigger] rows[x]).0 == k;
            suffixes_match_the_encoders(PREFIX_MANIFEST, id, d, d, Seq::empty());
            assert(read(rows[x]) == Ok::<Digest, Fault>(all[x]));
            assert(all[x] == d);
            all.lemma_filter_contains(bare, x);
        } else {
            let n = lemma_row(es, PREFIX_MANIFEST, id, start, limit - 1);
            lex_common_head(scope, n.encoded(), d.encoded());
        }
    }
}

// --- counts -----------------------------------------------------------------------

/// Counting manifests page by page adds up: a page of `n` and the page of `m` behind it
/// count what one page of both would. A page of one counts one where there is one.
pub proof fn counted_manifests_add_up(
    es: Seq<Entry>,
    repo: Seq<char>,
    id: RepoId,
    start: Option<Digest>,
    n: nat,
    m: nat,
)
    requires
        ordered(es),
        es.len() <= u64::MAX,
        repo_required(es, repo) == Ok::<RepoId, Fault>(id),
        keyed_by_digest(es, PREFIX_MANIFEST, id),
        n > 0,
    ensures
        count_manifests_answer(es, repo, start, n) is Ok,
        ({
            let (a, next) = count_manifests_answer(es, repo, start, n)->Ok_0;
            let list = digests_listed(es, PREFIX_MANIFEST, id, start);
            &&& a <= n
            &&& next is None ==> a == list.len()
            &&& next is Some ==> a == n && count_manifests_answer(es, repo, next, m) is Ok
                && count_manifests_answer(es, repo, start, n + m) is Ok && (
            count_manifests_answer(es, repo, start, n + m)->Ok_0).0 == a + (
            count_manifests_answer(es, repo, next, m)->Ok_0).0
        }),
{
    let list = digests_listed(es, PREFIX_MANIFEST, id, start);
    lemma_digest_pages(es, PREFIX_MANIFEST, id, start, n, m);
    lemma_list_is_short(es, repo_head(PREFIX_MANIFEST, id), start_key(PREFIX_MANIFEST, id, start));
}

spec fn start_key(prefix: u8, id: RepoId, start: Option<Digest>) -> Option<Seq<u8>> {
    match start {
        Some(d) => Some(digest_key(prefix, id, d)),
        None => None,
    }
}

/// A listing is no longer than the store.
proof fn lemma_list_is_short(es: Seq<Entry>, prefix: Seq<u8>, cursor: Option<Seq<u8>>)
    ensures
        listing(es, prefix, cursor).len() <= es.len(),
{
    es.lemma_filter_len(|e: Entry| in_range(e.0, prefix, cursor));
}

/// A digest-keyed page that is not the last names the digest of its last row, and the
/// page behind it goes on with the next row.
#[verifier::rlimit(40)]
proof fn lemma_digest_pages(
    es: Seq<Entry>,
    prefix: u8,
    id: RepoId,
    start: Option<Digest>,
    n: nat,
    m: nat,
)
    requires
        ordered(es),
        keyed_by_digest(es, prefix, id),
        n > 0,
    ensures
        ({
            let list = digests_listed(es, prefix, id, start);
            &&& n < list.len() ==> {
                let next = digest_at(list[n - 1].0, 5);
                let rest = digests_listed(es, prefix, id, next);
                &&& next is Some
                &&& rest == list.subrange(n as int, list.len() as int)
                &&& shown(list, n + m) == shown(list, n) + shown(rest, m)
                &&& 0 < m < rest.len() ==> digest_at(rest[m - 1].0, 5) is Some
                &&& n + m < list.len() ==> digest_at(list[n + m - 1].0, 5) is Some
            }
        }),
{
    let list = digests_listed(es, prefix, id, start);
    if n < list.len() {
        let d = lemma_row(es, prefix, id, start, n - 1);
        resuming_a_scan_continues_it(es, repo_head(prefix, id), start_key(prefix, id, start), n as int);
        let rest = digests_listed(es, prefix, id, Some(d));
        assert(rest == list.subrange(n as int, list.len() as int));
        assert(shown(list, n + m) =~= shown(list, n) + shown(rest, m));
        if 0 < m < rest.len() {
            let e = lemma_row(es, prefix, id, Some(d), m - 1);
        }
        if n + m < list.len() {
            let e = lemma_row(es, prefix, id, start, n + m - 1);
        }
    }
}

/// Usage adds up page by page: the blobs and the bytes of a page of `n` and of the page
/// of `m` behind it are those that one page of both would tell. A page of one tells the
/// one blob's own size.
#[verifier::rlimit(40)]
pub proof fn usage_adds_up(
    es: Seq<Entry>,
    repo: Seq<char>,
    id: RepoId,
    start: Option<Digest>,
    n: nat,
    m: nat,
)
    requires
        ordered(es),
        es.len() <= u64::MAX,
        repo_required(es, repo) == Ok::<RepoId, Fault>(id),
        keyed_by_digest(es, PREFIX_REPO_BLOB, id),
        n > 0,
        repo_usage_answer(es, repo, start, n) matches Ok(page) && page.2 is Some,
        repo_usage_answer(es, repo, (repo_usage_answer(es, repo, start, n)->Ok_0).2, m) is Ok,
    ensures
        ({
            let (blobs, bytes, next) = repo_usage_answer(es, repo, start, n)->Ok_0;
            let (more, further, _) = repo_usage_answer(es, repo, next, m)->Ok_0;
            &&& blobs == n
            &&& repo_usage_answer(es, repo, start, n + m) is Ok
            &&& (repo_usage_answer(es, repo, start, n + m)->Ok_0).0 == blobs + more
            &&& (repo_usage_answer(es, repo, start, n + m)->Ok_0).1 as int == (bytes + further)
                % 0x1_0000_0000_0000_0000
        }),
{
    let list = digests_listed(es, PREFIX_REPO_BLOB, id, start);
    let read = |e: Entry| blob_size_in(e);
    lemma_digest_pages(es, PREFIX_REPO_BLOB, id, start, n, m);
    lemma_list_is_short(es, repo_head(PREFIX_REPO_BLOB, id), start_key(PREFIX_REPO_BLOB, id, start));
    let next = (repo_usage_answer(es, repo, start, n)->Ok_0).2;
    let rest = digests_listed(es, PREFIX_REPO_BLOB, id, next);
    let (x, y) = (shown(list, n), shown(rest, m));
    lemma_collected_each(x, read);
    lemma_collected_each(y, read);
    lemma_collected_both(x, y, read);
    lemma_collected_each(x + y, read);
    lemma_sums_add(collected(x, read)->Ok_0, collected(y, read)->Ok_0);
}

/// What one blob's page tells: one blob, of the size that is recorded.
pub proof fn one_blob_is_its_own_size(
    es: Seq<Entry>,
    repo: Seq<char>,
    id: RepoId,
    start: Option<Digest>,
)
    requires
        ordered(es),
        repo_required(es, repo) == Ok::<RepoId, Fault>(id),
        keyed_by_digest(es, PREFIX_REPO_BLOB, id),
        repo_usage_answer(es, repo, start, 1) is Ok,
        digests_listed(es, PREFIX_REPO_BLOB, id, start).len() > 0,
    ensures
        ({
            let (blobs, bytes, _) = repo_usage_answer(es, repo, start, 1)->Ok_0;
            let first = digests_listed(es, PREFIX_REPO_BLOB, id, start)[0];
            &&& blobs == 1
            &&& number_pair_wire(first.1) matches Some((size, _)) && bytes == size
            &&& exists|d: Digest|
                first.0 == #[trigger] digest_key(PREFIX_REPO_BLOB, id, d) && lookup(es, first.0)
                    == Some(first.1)
        }),
{
    let list = digests_listed(es, PREFIX_REPO_BLOB, id, start);
    let read = |e: Entry| blob_size_in(e);
    let rows = shown(list, 1);
    lemma_collected_each(rows, read);
    assert(read(rows[0]) is Ok);
    let sizes = collected(rows, read)->Ok_0;
    assert(sizes.drop_last() =~= Seq::<u64>::empty());
    reveal_with_fuel(wrapped_sum, 2);
    let d = lemma_row(es, PREFIX_REPO_BLOB, id, start, 0);
    lemma_page(es, repo_head(PREFIX_REPO_BLOB, id), start_key(PREFIX_REPO_BLOB, id, start), 1);
    assert(in_range(
        rows[0].0,
        repo_head(PREFIX_REPO_BLOB, id),
        start_key(PREFIX_REPO_BLOB, id, start),
    ));
}

proof fn lemma_collected_both<A, B>(
    a: Seq<A>,
    b: Seq<A>,
    f: spec_fn(A) -> std::result::Result<B, Fault>,
)
    requires
        collected(a, f) is Ok,
        collected(b, f) is Ok,
    ensures
        collected(a + b, f) == Ok::<Seq<B>, Fault>(collected(a, f)->Ok_0 + collected(b, f)->Ok_0),
    decreases b.len(),
{
    if b.len() == 0 {
        assert(a + b =~= a);
        assert(collected(a, f)->Ok_0 + collected(b, f)->Ok_0 =~= collected(a, f)->Ok_0);
    } else {
        assert((a + b).drop_last() =~= a + b.drop_last());
        lemma_collected_both(a, b.drop_last(), f);
        let (x, y, z) = (
            collected(a, f)->Ok_0,
            collected(b.drop_last(), f)->Ok_0,
            f(b.last())->Ok_0,
        );
        assert(x + y.push(z) =~= (x + y).push(z));
    }
}

proof fn lemma_sums_add(a: Seq<u64>, b: Seq<u64>)
    ensures
        wrapped_sum(a + b) as int == (wrapped_sum(a) + wrapped_sum(b)) % 0x1_0000_0000_0000_0000,
    decreases b.len(),
{
    if b.len() == 0 {
        assert(a + b =~= a);
    } else {
        assert((a + b).drop_last() =~= a + b.drop_last());
        lemma_sums_add(a, b.drop_last());
        lemma_wrapping(
            wrapped_sum(a) as int,
            wrapped_sum(b.drop_last()) as int,
            b.last() as int,
        );
    }
}

/// Where a sum wraps makes no difference to what it wraps to.
proof fn lemma_wrapping(x: int, y: int, z: int)
    ensures
        ((x + y) % 0x1_0000_0000_0000_0000 + z) % 0x1_0000_0000_0000_0000 == (x + (y + z)
            % 0x1_0000_0000_0000_0000) % 0x1_0000_0000_0000_0000,
{
    vstd::arithmetic::div_mod::lemma_add_mod_noop(x + y, z, 0x1_0000_0000_0000_0000);
    vstd::arithmetic::div_mod::lemma_add_mod_noop(x, y + z, 0x1_0000_0000_0000_0000);
    vstd::arithmetic::div_mod::lemma_add_mod_noop_right(z, x + y, 0x1_0000_0000_0000_0000);
    vstd::arithmetic::div_mod::lemma_add_mod_noop_right(x, y + z, 0x1_0000_0000_0000_0000);
}

/// Counting tags page by page adds up, and a page that is not the last names the tag
/// where it ends.
#[verifier::rlimit(40)]
pub proof fn counted_tags_add_up(
    es: Seq<Entry>,
    repo: Seq<char>,
    id: RepoId,
    start: Option<Seq<char>>,
    n: nat,
    m: nat,
)
    requires
        ordered(es),
        es.len() <= u64::MAX,
        repo_required(es, repo) == Ok::<RepoId, Fault>(id),
        n > 0,
        count_tags_answer(es, repo, start, n) is Ok,
        count_tags_answer(es, repo, start, n + m) is Ok,
        (count_tags_answer(es, repo, start, n)->Ok_0).1 is Some,
        count_tags_answer(es, repo, (count_tags_answer(es, repo, start, n)->Ok_0).1, m) is Ok,
    ensures
        ({
            let (a, next) = count_tags_answer(es, repo, start, n)->Ok_0;
            &&& a == n
            &&& lookup(es, tag_key(id, next->0)) is Some
            &&& (count_tags_answer(es, repo, start, n + m)->Ok_0).0 == a + (
            count_tags_answer(es, repo, next, m)->Ok_0).0
        }),
{
    let list = tags_listed(es, id, start);
    let scope = repo_head(PREFIX_TAG, id);
    let cursor = match start {
        Some(t) => Some(tag_key(id, t)),
        None => None,
    };
    let (a, next) = count_tags_answer(es, repo, start, n)->Ok_0;
    let k = list[n - 1].0;
    lemma_listing(es, scope, cursor);
    assert(in_range(list[n - 1].0, scope, cursor));
    decode_utf8_encode_utf8(after(k, 5));
    assert(scope.len() == 5);
    assert(k =~= scope + after(k, 5));
    assert(k == tag_key(id, next->0));
    lemma_page(es, scope, cursor, n);
    assert(shown(list, n)[n - 1] == list[n - 1]);
    resuming_a_scan_continues_it(es, scope, cursor, n as int);
    let rest = tags_listed(es, id, next);
    assert(rest == list.subrange(n as int, list.len() as int));
    assert(shown(list, n + m) =~= shown(list, n) + shown(rest, m));
    lemma_list_is_short(es, scope, cursor);
}

// --- edges ------------------------------------------------------------------------

/// A page of the indexes that list a manifest shows indexes that do, in digest order
/// and behind the cursor, and leaves none out.
pub proof fn a_list_leaves_no_parent_out(
    es: Seq<Entry>,
    repo: Seq<char>,
    id: RepoId,
    child: Digest,
    start: Option<Digest>,
    limit: nat,
    i: int,
    parent: Digest,
)
    requires
        ordered(es),
        repo_required(es, repo) == Ok::<RepoId, Fault>(id),
        forall|x: int|
            0 <= x < es.len() && has_prefix(
                #[trigger] es[x].0,
                digest_key(PREFIX_CHILD_PARENT, id, child),
            ) ==> exists|d: Digest|
                es[x].0 == #[trigger] edge_key(PREFIX_CHILD_PARENT, id, child, d),
        parents_of_manifest_answer(es, repo, child, start, limit) is Ok,
    ensures
        ({
            let (ds, next) = parents_of_manifest_answer(es, repo, child, start, limit)->Ok_0;
            &&& ds.len() <= limit
            &&& 0 <= i < ds.len() ==> lookup(es, edge_key(PREFIX_CHILD_PARENT, id, child, ds[i]))
                is Some && (start matches Some(s) ==> lex_lt(s.encoded(), ds[i].encoded()))
            &&& limit > 0 && lookup(es, edge_key(PREFIX_CHILD_PARENT, id, child, parent)) is Some
                && (start matches Some(s) ==> lex_lt(s.encoded(), parent.encoded()))
                ==> ds.contains(parent) || (next matches Some(n) && lex_lt(
                n.encoded(),
                parent.encoded(),
            ))
        }),
{
    lemma_parents_shown(es, repo, id, child, start, limit, i);
    lemma_parents_complete(es, repo, id, child, start, limit, parent);
}

/// Whatever stands under a child's scan is the edge of a parent.
spec fn parents_are_whole(es: Seq<Entry>, id: RepoId, child: Digest) -> bool {
    forall|x: int|
        0 <= x < es.len() && has_prefix(
            #[trigger] es[x].0,
            digest_key(PREFIX_CHILD_PARENT, id, child),
        ) ==> exists|d: Digest| es[x].0 == #[trigger] edge_key(PREFIX_CHILD_PARENT, id, child, d)
}

spec fn parent_cursor(id: RepoId, child: Digest, start: Option<Digest>) -> Option<Seq<u8>> {
    match start {
        Some(s) => Some(edge_key(PREFIX_CHILD_PARENT, id, child, s)),
        None => None,
    }
}

/// Each row of a page of parents is the edge of the parent that it shows.
#[verifier::rlimit(40)]
proof fn lemma_parent_rows(
    es: Seq<Entry>,
    repo: Seq<char>,
    id: RepoId,
    child: Digest,
    start: Option<Digest>,
    limit: nat,
)
    requires
        ordered(es),
        repo_required(es, repo) == Ok::<RepoId, Fault>(id),
        parents_are_whole(es, id, child),
        parents_of_manifest_answer(es, repo, child, start, limit) is Ok,
    ensures
        ({
            let rows = shown(edges_listed(es, PREFIX_CHILD_PARENT, id, child, start), limit);
            let ds = (parents_of_manifest_answer(es, repo, child, start, limit)->Ok_0).0;
            &&& ds.len() == rows.len()
            &&& forall|x: int|
                0 <= x < rows.len() ==> (#[trigger] rows[x]).0 == edge_key(
                    PREFIX_CHILD_PARENT,
                    id,
                    child,
                    ds[x],
                )
        }),
{
    let ds = (parents_of_manifest_answer(es, repo, child, start, limit)->Ok_0).0;
    let scope = digest_key(PREFIX_CHILD_PARENT, id, child);
    let cursor = parent_cursor(id, child, start);
    let list = edges_listed(es, PREFIX_CHILD_PARENT, id, child, start);
    let rows = shown(list, limit);
    let read = |e: Entry| parent_in(e);
    lemma_collected_each(rows, read);
    lemma_listing(es, scope, cursor);
    assert forall|x: int| 0 <= x < rows.len() implies (#[trigger] rows[x]).0 == edge_key(
        PREFIX_CHILD_PARENT,
        id,
        child,
        ds[x],
    ) by {
        assert(rows[x] == list[x]);
        assert(in_range(list[x].0, scope, cursor));
        assert(es.contains(list[x]));
        let y = choose|y: int| 0 <= y < es.len() && es[y] == list[x];
        assert(has_prefix(es[y].0, scope));
        let d = choose|d: Digest|
            es[y].0 == #[trigger] edge_key(PREFIX_CHILD_PARENT, id, child, d);
        suffixes_match_the_encoders(PREFIX_CHILD_PARENT, id, child, d, Seq::empty());
        assert(read(rows[x]) == Ok::<Digest, Fault>(ds[x]));
    }
}

proof fn lemma_parents_shown(
    es: Seq<Entry>,
    repo: Seq<char>,
    id: RepoId,
    child: Digest,
    start: Option<Digest>,
    limit: nat,
    i: int,
)
    requires
        ordered(es),
        repo_required(es, repo) == Ok::<RepoId, Fault>(id),
        parents_are_whole(es, id, child),
        parents_of_manifest_answer(es, repo, child, start, limit) is Ok,
    ensures
        ({
            let ds = (parents_of_manifest_answer(es, repo, child, start, limit)->Ok_0).0;
            &&& ds.len() <= limit
            &&& 0 <= i < ds.len() ==> lookup(es, edge_key(PREFIX_CHILD_PARENT, id, child, ds[i]))
                is Some && (start matches Some(s) ==> lex_lt(s.encoded(), ds[i].encoded()))
        }),
{
    let ds = (parents_of_manifest_answer(es, repo, child, start, limit)->Ok_0).0;
    let scope = digest_key(PREFIX_CHILD_PARENT, id, child);
    let cursor = parent_cursor(id, child, start);
    let rows = shown(edges_listed(es, PREFIX_CHILD_PARENT, id, child, start), limit);
    lemma_parent_rows(es, repo, id, child, start, limit);
    lemma_page(es, scope, cursor, limit);
    if 0 <= i < ds.len() {
        assert(rows[i].0 == edge_key(PREFIX_CHILD_PARENT, id, child, ds[i]));
        assert(in_range(rows[i].0, scope, cursor));
        if let Some(s) = start {
            lex_common_head(scope, s.encoded(), ds[i].encoded());
        }
    }
}

#[verifier::rlimit(40)]
proof fn lemma_parents_complete(
    es: Seq<Entry>,
    repo: Seq<char>,
    id: RepoId,
    child: Digest,
    start: Option<Digest>,
    limit: nat,
    parent: Digest,
)
    requires
        ordered(es),
        repo_required(es, repo) == Ok::<RepoId, Fault>(id),
        parents_are_whole(es, id, child),
        parents_of_manifest_answer(es, repo, child, start, limit) is Ok,
    ensures
        ({
            let (ds, next) = parents_of_manifest_answer(es, repo, child, start, limit)->Ok_0;
            limit > 0 && lookup(es, edge_key(PREFIX_CHILD_PARENT, id, child, parent)) is Some && (
            start matches Some(s) ==> lex_lt(s.encoded(), parent.encoded())) ==> ds.contains(parent)
                || (next matches Some(n) && lex_lt(n.encoded(), parent.encoded()))
        }),
{
    let (ds, next) = parents_of_manifest_answer(es, repo, child, start, limit)->Ok_0;
    let scope = digest_key(PREFIX_CHILD_PARENT, id, child);
    let cursor = parent_cursor(id, child, start);
    let list = edges_listed(es, PREFIX_CHILD_PARENT, id, child, start);
    let rows = shown(list, limit);
    let k = edge_key(PREFIX_CHILD_PARENT, id, child, parent);
    if limit > 0 && lookup(es, k) is Some && (start matches Some(s) ==> lex_lt(
        s.encoded(),
        parent.encoded(),
    )) {
        lemma_parent_rows(es, repo, id, child, start, limit);
        lemma_page(es, scope, cursor, limit);
        lemma_has_prefix_concat(scope, parent.encoded());
        if let Some(s) = start {
            lex_common_head(scope, s.encoded(), parent.encoded());
        }
        assert(in_range(k, scope, cursor));
        if exists|x: int| 0 <= x < rows.len() && (#[trigger] rows[x]).0 == k {
            let x = choose|x: int| 0 <= x < rows.len() && (#[trigger] rows[x]).0 == k;
            suffixes_match_the_encoders(PREFIX_CHILD_PARENT, id, child, parent, Seq::empty());
            suffixes_match_the_encoders(PREFIX_CHILD_PARENT, id, child, ds[x], Seq::empty());
            assert(ds[x] == parent);
        } else {
            assert(rows[limit - 1] == list[limit - 1]);
            assert(rows[limit - 1].0 == edge_key(PREFIX_CHILD_PARENT, id, child, ds[limit - 1]));
            lex_common_head(scope, ds[limit - 1].encoded(), parent.encoded());
        }
    }
}

/// A page of the manifests that refer to a blob shows manifests that do, each with the
/// name of its repository, and leaves none out: one that it does not show is on a later
/// page, and then the page says where that begins.
#[verifier::rlimit(40)]
pub proof fn a_list_leaves_no_reference_out(
    es: Seq<Entry>,
    blob: Digest,
    limit: nat,
    i: int,
    id: RepoId,
    manifest: Digest,
)
    requires
        ordered(es),
        forall|x: int|
            0 <= x < es.len() && has_prefix(#[trigger] es[x].0, blob_refs_key(blob)) ==> exists|
                r: RepoId,
                m: Digest,
            | es[x].0 == #[trigger] blob_ref_key(blob, r, m),
        manifests_referencing_blob_answer(es, blob, None, limit) is Ok,
    ensures
        ({
            let (rs, next) = manifests_referencing_blob_answer(es, blob, None, limit)->Ok_0;
            &&& rs.len() <= limit
            &&& 0 <= i < rs.len() ==> exists|r: RepoId|
                lookup(es, #[trigger] blob_ref_key(blob, r, rs[i].1)) is Some && repo_name_of(es, r)
                    == Ok::<Seq<char>, Fault>(rs[i].0)
            &&& limit > 0 && lookup(es, blob_ref_key(blob, id, manifest)) is Some ==> {
                ||| (repo_name_of(es, id) matches Ok(name) && rs.contains((name, manifest)))
                ||| next is Some
            }
        }),
{
    let (rs, next) = manifests_referencing_blob_answer(es, blob, None, limit)->Ok_0;
    let scope = blob_refs_key(blob);
    let list = listing(es, scope, None);
    let rows = shown(list, limit);
    let read = |e: Entry| reference_in(es, e.0);
    lemma_page(es, scope, None, limit);
    lemma_collected_each(rows, read);
    lemma_listing(es, scope, None);
    if 0 <= i < rs.len() {
        assert(rows[i] == list[i]);
        assert(in_range(list[i].0, scope, None));
        assert(es.contains(list[i]));
        let y = choose|y: int| 0 <= y < es.len() && es[y] == list[i];
        assert(has_prefix(es[y].0, scope));
        let (r, m) = choose|r: RepoId, m: Digest| es[y].0 == #[trigger] blob_ref_key(blob, r, m);
        suffixes_match_the_encoders(PREFIX_CHILD_PARENT, r, blob, m, Seq::empty());
        assert(read(rows[i]) == Ok::<(Seq<char>, Digest), Fault>(rs[i]));
        assert(in_range(rows[i].0, scope, None));
        assert(lookup(es, blob_ref_key(blob, r, rs[i].1)) is Some);
    }
    let k = blob_ref_key(blob, id, manifest);
    if limit > 0 && lookup(es, k) is Some {
        crate::keys::blob_refs_are_under_their_scans(blob, id, manifest);
        assert(in_range(k, scope, None));
        if exists|x: int| 0 <= x < rows.len() && (#[trigger] rows[x]).0 == k {
            let x = choose|x: int| 0 <= x < rows.len() && (#[trigger] rows[x]).0 == k;
            suffixes_match_the_encoders(PREFIX_CHILD_PARENT, id, blob, manifest, Seq::empty());
            assert(read(rows[x]) == Ok::<(Seq<char>, Digest), Fault>(rs[x]));
            assert(rs.contains(rs[x]));
        }
    }
}

// --- cursors ----------------------------------------------------------------------

/// Where a listing is longer than a page, an entry stands behind the page's last.
proof fn lemma_one_more(es: Seq<Entry>, scope: Seq<u8>, cursor: Option<Seq<u8>>, limit: nat)
    requires
        ordered(es),
        0 < limit < listing(es, scope, cursor).len(),
    ensures
        exists|i: int|
            0 <= i < es.len() && has_prefix(#[trigger] es[i].0, scope) && lex_lt(
                listing(es, scope, cursor)[limit - 1].0,
                es[i].0,
            ),
{
    let list = listing(es, scope, cursor);
    lemma_listing(es, scope, cursor);
    let (a, b) = (list[limit - 1], list[limit as int]);
    assert(lex_lt(a.0, b.0));
    assert(in_range(b.0, scope, cursor));
    assert(es.contains(b));
    let i = choose|i: int| 0 <= i < es.len() && es[i] == b;
    assert(has_prefix(es[i].0, scope));
}

/// A search says that it goes on only where another repository of that prefix stands
/// behind the last it shows.
pub proof fn a_search_goes_on_only_where_there_is_more(
    es: Seq<Entry>,
    prefix: Seq<char>,
    start: Option<Seq<char>>,
    limit: nat,
)
    requires
        ordered(es),
        search_repos_answer(es, prefix, start, limit) matches Ok(page) && page.1 is Some,
    ensures
        ({
            let (names, next) = search_repos_answer(es, prefix, start, limit)->Ok_0;
            &&& names.len() == limit
            &&& exists|i: int|
                0 <= i < es.len() && has_prefix(#[trigger] es[i].0, repo_name_key(prefix)) && lex_lt(
                    repo_name_key(next->0),
                    es[i].0,
                )
        }),
{
    let (names, next) = search_repos_answer(es, prefix, start, limit)->Ok_0;
    let scope = repo_name_key(prefix);
    let cursor = match start {
        Some(s) => Some(repo_name_key(s)),
        None => None,
    };
    let list = repos_listed(es, prefix, start);
    let rows = shown(list, limit);
    let read = |e: Entry| name_in(e);
    lemma_collected_each(rows, read);
    lemma_listing(es, scope, cursor);
    lemma_one_more(es, scope, cursor, limit);
    let k = list[limit - 1].0;
    assert(rows[limit - 1] == list[limit - 1]);
    assert(read(rows[limit - 1]) == Ok::<Seq<char>, Fault>(names[limit - 1]));
    assert(in_range(list[limit - 1].0, scope, cursor));
    assert(k.subrange(0, scope.len() as int)[0] == scope[0]);
    decode_utf8_encode_utf8(after(k, 1));
    assert(k =~= seq![PREFIX_REPO_BY_NAME] + after(k, 1));
}

/// A page of manifests, tagged or not, listed or counted, says that it goes on only where
/// another manifest stands behind the place it names.
pub proof fn manifests_go_on_only_where_there_are_more(
    es: Seq<Entry>,
    repo: Seq<char>,
    id: RepoId,
    start: Option<Digest>,
    limit: nat,
)
    requires
        ordered(es),
        repo_required(es, repo) == Ok::<RepoId, Fault>(id),
        keyed_by_digest(es, PREFIX_MANIFEST, id),
    ensures
        list_manifests_answer(es, repo, start, limit) matches Ok(page) ==> (page.1 matches Some(n)
            ==> page.0.len() == limit && more_behind(es, PREFIX_MANIFEST, id, n)),
        untagged_manifests_answer(es, repo, start, limit) matches Ok(page) ==> (
        page.1 matches Some(n) ==> more_behind(es, PREFIX_MANIFEST, id, n)),
        count_manifests_answer(es, repo, start, limit) matches Ok(page) ==> (page.1 matches Some(n)
            ==> more_behind(es, PREFIX_MANIFEST, id, n)),
{
    let list = digests_listed(es, PREFIX_MANIFEST, id, start);
    if 0 < limit < list.len() {
        let d = lemma_row(es, PREFIX_MANIFEST, id, start, limit - 1);
        lemma_one_more(
            es,
            repo_head(PREFIX_MANIFEST, id),
            start_key(PREFIX_MANIFEST, id, start),
            limit,
        );
        if list_manifests_answer(es, repo, start, limit) is Ok {
            lemma_collected_each(shown(list, limit), |e: Entry| manifest_in(e));
        }
    }
}

/// Something of a kind stands in a repository behind a digest.
pub open spec fn more_behind(es: Seq<Entry>, prefix: u8, id: RepoId, d: Digest) -> bool {
    exists|i: int|
        0 <= i < es.len() && has_prefix(#[trigger] es[i].0, repo_head(prefix, id)) && lex_lt(
            digest_key(prefix, id, d),
            es[i].0,
        )
}

/// A page of parents says that it goes on only where another parent stands behind the
/// last it shows.
pub proof fn parents_go_on_only_where_there_are_more(
    es: Seq<Entry>,
    repo: Seq<char>,
    id: RepoId,
    child: Digest,
    start: Option<Digest>,
    limit: nat,
)
    requires
        ordered(es),
        repo_required(es, repo) == Ok::<RepoId, Fault>(id),
        forall|x: int|
            0 <= x < es.len() && has_prefix(
                #[trigger] es[x].0,
                digest_key(PREFIX_CHILD_PARENT, id, child),
            ) ==> exists|d: Digest|
                es[x].0 == #[trigger] edge_key(PREFIX_CHILD_PARENT, id, child, d),
        parents_of_manifest_answer(es, repo, child, start, limit) matches Ok(page)
            && page.1 is Some,
    ensures
        ({
            let (ds, next) = parents_of_manifest_answer(es, repo, child, start, limit)->Ok_0;
            &&& ds.len() == limit
            &&& exists|i: int|
                0 <= i < es.len() && has_prefix(
                    #[trigger] es[i].0,
                    digest_key(PREFIX_CHILD_PARENT, id, child),
                ) && lex_lt(edge_key(PREFIX_CHILD_PARENT, id, child, next->0), es[i].0)
        }),
{
    let list = edges_listed(es, PREFIX_CHILD_PARENT, id, child, start);
    let rows = shown(list, limit);
    lemma_parent_rows(es, repo, id, child, start, limit);
    lemma_one_more(
        es,
        digest_key(PREFIX_CHILD_PARENT, id, child),
        parent_cursor(id, child, start),
        limit,
    );
    assert(rows[limit - 1] == list[limit - 1]);
}

/// A page of a blob's references says that it goes on only where there are more than it
/// shows.
pub proof fn references_go_on_only_where_there_are_more(es: Seq<Entry>, blob: Digest, limit: nat)
    requires
        manifests_referencing_blob_answer(es, blob, None, limit) matches Ok(page)
            && page.1 is Some,
    ensures
        (manifests_referencing_blob_answer(es, blob, None, limit)->Ok_0).0.len() == limit,
        listing(es, blob_refs_key(blob), None).len() > limit,
{
    let list = listing(es, blob_refs_key(blob), None);
    lemma_collected_each(shown(list, limit), |e: Entry| reference_in(es, e.0));
}

/// A page of a blob's references goes on behind the reference that is named: it shows
/// none that stands before, nor the one named, and leaves none out that stands behind.
#[verifier::rlimit(40)]
pub proof fn references_go_on_behind_the_one_named(
    es: Seq<Entry>,
    blob: Digest,
    name: Seq<char>,
    from: RepoId,
    last: Digest,
    limit: nat,
    i: int,
    id: RepoId,
    manifest: Digest,
)
    requires
        ordered(es),
        repo_required(es, name) == Ok::<RepoId, Fault>(from),
        forall|x: int|
            0 <= x < es.len() && has_prefix(#[trigger] es[x].0, blob_refs_key(blob)) ==> exists|
                r: RepoId,
                m: Digest,
            | es[x].0 == #[trigger] blob_ref_key(blob, r, m),
        manifests_referencing_blob_answer(es, blob, Some((name, last)), limit) is Ok,
    ensures
        ({
            let (rs, next) = manifests_referencing_blob_answer(
                es,
                blob,
                Some((name, last)),
                limit,
            )->Ok_0;
            &&& 0 <= i < rs.len() ==> exists|r: RepoId|
                lookup(es, #[trigger] blob_ref_key(blob, r, rs[i].1)) is Some && repo_name_of(es, r)
                    == Ok::<Seq<char>, Fault>(rs[i].0) && lex_lt(
                    blob_ref_key(blob, from, last),
                    blob_ref_key(blob, r, rs[i].1),
                )
            &&& limit > 0 && lookup(es, blob_ref_key(blob, id, manifest)) is Some && lex_lt(
                blob_ref_key(blob, from, last),
                blob_ref_key(blob, id, manifest),
            ) ==> {
                ||| (repo_name_of(es, id) matches Ok(n) && rs.contains((n, manifest)))
                ||| next is Some
            }
        }),
{
    let (rs, next) = manifests_referencing_blob_answer(es, blob, Some((name, last)), limit)->Ok_0;
    let scope = blob_refs_key(blob);
    let cursor = Some(blob_ref_key(blob, from, last));
    let list = listing(es, scope, cursor);
    let rows = shown(list, limit);
    let read = |e: Entry| reference_in(es, e.0);
    lemma_page(es, scope, cursor, limit);
    lemma_collected_each(rows, read);
    lemma_listing(es, scope, cursor);
    if 0 <= i < rs.len() {
        assert(rows[i] == list[i]);
        assert(in_range(list[i].0, scope, cursor));
        assert(es.contains(list[i]));
        let y = choose|y: int| 0 <= y < es.len() && es[y] == list[i];
        assert(has_prefix(es[y].0, scope));
        let (r, m) = choose|r: RepoId, m: Digest| es[y].0 == #[trigger] blob_ref_key(blob, r, m);
        suffixes_match_the_encoders(PREFIX_CHILD_PARENT, r, blob, m, Seq::empty());
        assert(read(rows[i]) == Ok::<(Seq<char>, Digest), Fault>(rs[i]));
        assert(in_range(rows[i].0, scope, cursor));
        assert(lookup(es, blob_ref_key(blob, r, rs[i].1)) is Some);
    }
    let k = blob_ref_key(blob, id, manifest);
    if limit > 0 && lookup(es, k) is Some && lex_lt(blob_ref_key(blob, from, last), k) {
        crate::keys::blob_refs_are_under_their_scans(blob, id, manifest);
        assert(in_range(k, scope, cursor));
        if exists|x: int| 0 <= x < rows.len() && (#[trigger] rows[x]).0 == k {
            let x = choose|x: int| 0 <= x < rows.len() && (#[trigger] rows[x]).0 == k;
            suffixes_match_the_encoders(PREFIX_CHILD_PARENT, id, blob, manifest, Seq::empty());
            assert(read(rows[x]) == Ok::<(Seq<char>, Digest), Fault>(rs[x]));
            assert(rs.contains(rs[x]));
        }
    }
}

} // verus!
