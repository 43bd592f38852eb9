//! What the pages of a referrers query show together.
use vstd::prelude::*;

use crate::bytes::{has_prefix, lemma_has_prefix_concat, lex_common_head, lex_lt};
use crate::digest::Digest;
use crate::keys::{digest_key, edge_key, PREFIX_REFERRER};
use crate::meta::engine::{
    in_range, lemma_listing, lemma_listing_is_complete, lemma_lookup_at, lemma_table_key_is_entry,
    lookup, ordered, resuming_a_scan_continues_it, table, Entry,
};
use crate::registry::codec::referrer_of;
use crate::registry::discovery::edges_listed;
use crate::registry::error::Fault;
use crate::registry::referrers::{is_wanted, referrer_in, referrers_answer};
use crate::registry::registry::{
    collected, lemma_collected_each, lemma_collected_fault, repo_lookup, shown,
};
use crate::registry::suffix::suffixes_match_the_encoders;
use crate::types::{ReferrerView, RepoId};

verus! {

/// A page: its entries, where the next one begins, and whether a filter was applied.
pub type PageView = (Seq<(Digest, ReferrerView)>, Option<Digest>, bool);

/// Whatever stands under a subject's scan is the edge of a referrer.
pub open spec fn edges_are_whole(es: Seq<Entry>, id: RepoId, subject: Digest) -> bool {
    forall|i: int|
        0 <= i < es.len() && has_prefix(
            #[trigger] es[i].0,
            digest_key(PREFIX_REFERRER, id, subject),
        ) ==> exists|d: Digest| es[i].0 == #[trigger] edge_key(PREFIX_REFERRER, id, subject, d)
}

/// The repository holds this referrer of the subject.
pub open spec fn is_stored(
    es: Seq<Entry>,
    id: RepoId,
    subject: Digest,
    r: (Digest, ReferrerView),
) -> bool {
    lookup(es, edge_key(PREFIX_REFERRER, id, subject, r.0)) matches Some(b) && referrer_of(b)
        == Some(r.1)
}

/// Where the `i`-th of some pages begins.
pub open spec fn begins_after(pages: Seq<PageView>, start: Option<Digest>, i: int) -> Option<Digest> {
    if i == 0 {
        start
    } else {
        pages[i - 1].1
    }
}

/// Pages read one after the other, each from where the one before it left off, until
/// one says that nothing is left.
pub open spec fn read_through(
    es: Seq<Entry>,
    repo: Seq<char>,
    subject: Digest,
    artifact_type: Option<Seq<char>>,
    start: Option<Digest>,
    limit: nat,
    pages: Seq<PageView>,
) -> bool {
    &&& pages.len() > 0
    &&& forall|i: int|
        0 <= i < pages.len() ==> referrers_answer(
            es,
            repo,
            subject,
            artifact_type,
            begins_after(pages, start, i),
            limit,
        ) == Ok::<PageView, Fault>(#[trigger] pages[i])
    &&& forall|i: int|
        0 <= i < pages.len() ==> ((#[trigger] pages[i]).1 is None <==> i == pages.len() - 1)
}

/// The entries of some pages, one page after the other.
pub open spec fn shown_by(pages: Seq<PageView>) -> Seq<(Digest, ReferrerView)>
    decreases pages.len(),
{
    if pages.len() == 0 {
        Seq::empty()
    } else {
        pages[0].0 + shown_by(pages.drop_first())
    }
}

/// What is read in two parts is what is read in one.
proof fn lemma_collected_in_two<A, B>(
    a: Seq<A>,
    b: Seq<A>,
    f: spec_fn(A) -> std::result::Result<B, Fault>,
)
    ensures
        collected(a, f) is Ok && collected(b, f) is Ok ==> collected(a + b, f) == Ok::<
            Seq<B>,
            Fault,
        >(collected(a, f)->Ok_0 + collected(b, f)->Ok_0),
    decreases b.len(),
{
    if b.len() == 0 {
        assert(a + b =~= a);
        if collected(a, f) is Ok && collected(b, f) is Ok {
            assert(collected(a, f)->Ok_0 + collected(b, f)->Ok_0 =~= collected(a, f)->Ok_0);
        }
    } else {
        assert((a + b).drop_last() =~= a + b.drop_last());
        lemma_collected_in_two(a, b.drop_last(), f);
        if collected(a, f) is Ok && collected(b, f) is Ok {
            let x = collected(a, f)->Ok_0;
            let y = collected(b.drop_last(), f)->Ok_0;
            let z = f(b.last())->Ok_0;
            assert(x + y.push(z) =~= (x + y).push(z));
        }
    }
}

/// A page that is not the last names the last edge it has seen, and the next page
/// goes on behind it.
proof fn lemma_next_page_goes_on(
    es: Seq<Entry>,
    repo: Seq<char>,
    id: RepoId,
    subject: Digest,
    artifact_type: Option<Seq<char>>,
    start: Option<Digest>,
    limit: nat,
)
    requires
        ordered(es),
        repo_lookup(es, repo) == Ok::<Option<RepoId>, Fault>(Some(id)),
        edges_are_whole(es, id, subject),
        limit > 0,
        referrers_answer(es, repo, subject, artifact_type, start, limit) matches Ok(page)
            && page.1 is Some,
    ensures
        ({
            let page = referrers_answer(es, repo, subject, artifact_type, start, limit)->Ok_0;
            let list = edges_listed(es, PREFIX_REFERRER, id, subject, start);
            &&& limit < list.len()
            &&& edges_listed(es, PREFIX_REFERRER, id, subject, page.1) == list.subrange(
                limit as int,
                list.len() as int,
            )
        }),
{
    let list = edges_listed(es, PREFIX_REFERRER, id, subject, start);
    let scope = digest_key(PREFIX_REFERRER, id, subject);
    let cursor = match start {
        Some(d) => Some(edge_key(PREFIX_REFERRER, id, subject, d)),
        None => None,
    };
    let read = |e: Entry| referrer_in(e);
    let rows = shown(list, limit);
    lemma_collected_each(rows, read);
    lemma_listing(es, scope, cursor);
    let n = limit - 1;
    assert(in_range(list[n].0, scope, cursor));
    assert(es.contains(list[n]));
    let x = choose|x: int| 0 <= x < es.len() && es[x] == list[n];
    assert(has_prefix(es[x].0, scope));
    let d = choose|d: Digest| es[x].0 == #[trigger] edge_key(PREFIX_REFERRER, id, subject, d);
    suffixes_match_the_encoders(PREFIX_REFERRER, id, subject, d, Seq::empty());
    assert(rows[n] == list[n]);
    assert(read(rows[n]) is Ok);
    resuming_a_scan_continues_it(es, scope, cursor, limit as int);
}

/// Pages read through from a place show what is wanted of every edge behind it.
proof fn lemma_pages_show_the_rest(
    es: Seq<Entry>,
    repo: Seq<char>,
    id: RepoId,
    subject: Digest,
    artifact_type: Option<Seq<char>>,
    start: Option<Digest>,
    limit: nat,
    pages: Seq<PageView>,
)
    requires
        ordered(es),
        repo_lookup(es, repo) == Ok::<Option<RepoId>, Fault>(Some(id)),
        edges_are_whole(es, id, subject),
        limit > 0,
        read_through(es, repo, subject, artifact_type, start, limit, pages),
    ensures
        ({
            let list = edges_listed(es, PREFIX_REFERRER, id, subject, start);
            let all = collected(list, |e: Entry| referrer_in(e));
            all is Ok && shown_by(pages) == (all->Ok_0).filter(
                |r: (Digest, ReferrerView)| is_wanted(r, artifact_type),
            )
        }),
    decreases pages.len(),
{
    let list = edges_listed(es, PREFIX_REFERRER, id, subject, start);
    let read = |e: Entry| referrer_in(e);
    let wanted = |r: (Digest, ReferrerView)| is_wanted(r, artifact_type);
    let rows = shown(list, limit);
    let rest = pages.drop_first();
    assert(referrers_answer(
        es,
        repo,
        subject,
        artifact_type,
        begins_after(pages, start, 0),
        limit,
    ) == Ok::<PageView, Fault>(pages[0]));
    lemma_collected_each(rows, read);
    if pages.len() == 1 {
        assert(pages[0].1 is None);
        assert(rows =~= list);
        assert(shown_by(rest) =~= Seq::empty());
        assert(shown_by(pages) =~= pages[0].0);
    } else {
        assert(pages[0].1 is Some);
        lemma_next_page_goes_on(es, repo, id, subject, artifact_type, start, limit);
        assert forall|i: int| 0 <= i < rest.len() implies referrers_answer(
            es,
            repo,
            subject,
            artifact_type,
            begins_after(rest, pages[0].1, i),
            limit,
        ) == Ok::<PageView, Fault>(#[trigger] rest[i]) by {
            assert(rest[i] == pages[i + 1]);
            assert(begins_after(rest, pages[0].1, i) == begins_after(pages, start, i + 1));
        }
        assert forall|i: int| 0 <= i < rest.len() implies ((#[trigger] rest[i]).1 is None <==> i
            == rest.len() - 1) by {
            assert(rest[i] == pages[i + 1]);
        }
        lemma_pages_show_the_rest(
            es,
            repo,
            id,
            subject,
            artifact_type,
            pages[0].1,
            limit,
            rest,
        );
        let behind = list.subrange(limit as int, list.len() as int);
        lemma_collected_in_two(rows, behind, read);
        assert(rows + behind =~= list);
        Seq::<(Digest, ReferrerView)>::filter_distributes_over_add(
            collected(rows, read)->Ok_0,
            collected(behind, read)->Ok_0,
            wanted,
        );
    }
}

/// Filtering keeps the order.
proof fn lemma_filter_keeps_order(
    all: Seq<(Digest, ReferrerView)>,
    wanted: spec_fn((Digest, ReferrerView)) -> bool,
)
    requires
        forall|i: int, j: int|
            0 <= i < j < all.len() ==> lex_lt(
                (#[trigger] all[i]).0.encoded(),
                (#[trigger] all[j]).0.encoded(),
            ),
    ensures
        ({
            let out = all.filter(wanted);
            &&& forall|i: int, j: int|
                0 <= i < j < out.len() ==> lex_lt(
                    (#[trigger] out[i]).0.encoded(),
                    (#[trigger] out[j]).0.encoded(),
                )
            &&& forall|i: int| 0 <= i < out.len() ==> all.contains(#[trigger] out[i])
        }),
    decreases all.len(),
{
    reveal(Seq::filter);
    let out = all.filter(wanted);
    if all.len() > 0 {
        let head = all.drop_last();
        let part = head.filter(wanted);
        assert forall|i: int, j: int| 0 <= i < j < head.len() implies lex_lt(
            (#[trigger] head[i]).0.encoded(),
            (#[trigger] head[j]).0.encoded(),
        ) by {
            assert(head[i] == all[i] && head[j] == all[j]);
        }
        lemma_filter_keeps_order(head, wanted);
        assert forall|i: int| 0 <= i < part.len() implies all.contains(#[trigger] part[i])
            && lex_lt(part[i].0.encoded(), all.last().0.encoded()) by {
            assert(head.contains(part[i]));
            let x = choose|x: int| 0 <= x < head.len() && head[x] == part[i];
            assert(all[x] == part[i]);
            assert(lex_lt(all[x].0.encoded(), all[all.len() - 1].0.encoded()));
        }
        assert(all[all.len() - 1] == all.last());
        if wanted(all.last()) {
            assert(out == part.push(all.last()));
            assert forall|i: int| 0 <= i < out.len() implies all.contains(#[trigger] out[i]) by {
                if i < part.len() {
                    assert(out[i] == part[i]);
                }
            }
            assert forall|i: int, j: int| 0 <= i < j < out.len() implies lex_lt(
                (#[trigger] out[i]).0.encoded(),
                (#[trigger] out[j]).0.encoded(),
            ) by {
                assert(out[i] == part[i]);
                if j < part.len() {
                    assert(out[j] == part[j]);
                }
            }
        } else {
            assert(out == part);
        }
    }
}

/// Every edge of a subject, read: the referrers that are stored, in digest order.
proof fn lemma_edges_are_the_referrers(
    es: Seq<Entry>,
    id: RepoId,
    subject: Digest,
    all: Seq<(Digest, ReferrerView)>,
)
    requires
        ordered(es),
        edges_are_whole(es, id, subject),
        collected(
            edges_listed(es, PREFIX_REFERRER, id, subject, None),
            |e: Entry| referrer_in(e),
        ) == Ok::<Seq<(Digest, ReferrerView)>, Fault>(all),
    ensures
        forall|r: (Digest, ReferrerView)| #[trigger]
            all.contains(r) <==> is_stored(es, id, subject, r),
        forall|i: int, j: int|
            0 <= i < j < all.len() ==> lex_lt(
                (#[trigger] all[i]).0.encoded(),
                (#[trigger] all[j]).0.encoded(),
            ),
{
    let scope = digest_key(PREFIX_REFERRER, id, subject);
    let list = edges_listed(es, PREFIX_REFERRER, id, subject, None);
    let read = |e: Entry| referrer_in(e);
    lemma_collected_each(list, read);
    lemma_listing(es, scope, None);
    assert forall|i: int| 0 <= i < list.len() implies (#[trigger] list[i]).0 == edge_key(
        PREFIX_REFERRER,
        id,
        subject,
        all[i].0,
    ) && is_stored(es, id, subject, all[i]) by {
        assert(in_range(list[i].0, scope, None));
        assert(es.contains(list[i]));
        let x = choose|x: int| 0 <= x < es.len() && es[x] == list[i];
        assert(has_prefix(es[x].0, scope));
        let d = choose|d: Digest| es[x].0 == #[trigger] edge_key(PREFIX_REFERRER, id, subject, d);
        suffixes_match_the_encoders(PREFIX_REFERRER, id, subject, d, Seq::empty());
        assert(read(list[i]) == Ok::<(Digest, ReferrerView), Fault>(all[i]));
        lemma_lookup_at(es, x);
    }
    assert forall|r: (Digest, ReferrerView)| #[trigger]
        all.contains(r) <==> is_stored(es, id, subject, r) by {
        if all.contains(r) {
            let i = choose|i: int| 0 <= i < all.len() && all[i] == r;
            assert(list[i].0 == edge_key(PREFIX_REFERRER, id, subject, all[i].0));
        }
        if is_stored(es, id, subject, r) {
            let k = edge_key(PREFIX_REFERRER, id, subject, r.0);
            lemma_table_key_is_entry(es, k);
            let x = choose|x: int| 0 <= x < es.len() && #[trigger] es[x] == (k, table(es)[k]);
            lemma_has_prefix_concat(scope, r.0.encoded());
            lemma_listing_is_complete(es, scope, None, x);
            let i = choose|i: int| 0 <= i < list.len() && list[i] == es[x];
            suffixes_match_the_encoders(PREFIX_REFERRER, id, subject, r.0, Seq::empty());
            assert(read(list[i]) == Ok::<(Digest, ReferrerView), Fault>(all[i]));
            assert(all[i] == r);
        }
    }
    assert forall|i: int, j: int| 0 <= i < j < all.len() implies lex_lt(
        (#[trigger] all[i]).0.encoded(),
        (#[trigger] all[j]).0.encoded(),
    ) by {
        assert(lex_lt(list[i].0, list[j].0));
        lex_common_head(scope, all[i].0.encoded(), all[j].0.encoded());
    }
}

/// Following the cursor from the start until there is none shows every referrer of
/// the wanted type exactly once, in digest order, whatever the size of a page; no
/// page is longer than was asked for, and each says whether a filter was applied.
pub proof fn pages_show_every_referrer_once(
    es: Seq<Entry>,
    repo: Seq<char>,
    id: RepoId,
    subject: Digest,
    artifact_type: Option<Seq<char>>,
    limit: nat,
    pages: Seq<PageView>,
)
    requires
        ordered(es),
        repo_lookup(es, repo) == Ok::<Option<RepoId>, Fault>(Some(id)),
        edges_are_whole(es, id, subject),
        limit > 0,
        read_through(es, repo, subject, artifact_type, None, limit, pages),
    ensures
        forall|r: (Digest, ReferrerView)| #[trigger]
            shown_by(pages).contains(r) <==> is_stored(es, id, subject, r) && is_wanted(
                r,
                artifact_type,
            ),
        forall|i: int, j: int|
            0 <= i < j < shown_by(pages).len() ==> lex_lt(
                (#[trigger] shown_by(pages)[i]).0.encoded(),
                (#[trigger] shown_by(pages)[j]).0.encoded(),
            ),
        forall|i: int|
            0 <= i < pages.len() ==> (#[trigger] pages[i]).0.len() <= limit && pages[i].2 == (
            artifact_type is Some),
{
    let list = edges_listed(es, PREFIX_REFERRER, id, subject, None);
    let read = |e: Entry| referrer_in(e);
    let wanted = |r: (Digest, ReferrerView)| is_wanted(r, artifact_type);
    lemma_pages_show_the_rest(es, repo, id, subject, artifact_type, None, limit, pages);
    let all = collected(list, read)->Ok_0;
    lemma_edges_are_the_referrers(es, id, subject, all);
    lemma_filter_keeps_order(all, wanted);
    let out = shown_by(pages);
    assert(out == all.filter(wanted));
    assert forall|r: (Digest, ReferrerView)| #[trigger] out.contains(r) <==> is_stored(
        es,
        id,
        subject,
        r,
    ) && is_wanted(r, artifact_type) by {
        if out.contains(r) {
            let i = choose|i: int| 0 <= i < out.len() && out[i] == r;
            all.lemma_filter_pred(wanted, i);
            assert(all.contains(out[i]));
        }
        if is_stored(es, id, subject, r) && is_wanted(r, artifact_type) {
            assert(all.contains(r));
            let i = choose|i: int| 0 <= i < all.len() && all[i] == r;
            all.lemma_filter_contains(wanted, i);
        }
    }
    assert forall|i: int| 0 <= i < pages.len() implies (#[trigger] pages[i]).0.len() <= limit
        && pages[i].2 == (artifact_type is Some) by {
        let start = begins_after(pages, None, i);
        assert(referrers_answer(es, repo, subject, artifact_type, start, limit) == Ok::<
            PageView,
            Fault,
        >(pages[i]));
        let rows = shown(edges_listed(es, PREFIX_REFERRER, id, subject, start), limit);
        lemma_collected_each(rows, read);
        (collected(rows, read)->Ok_0).lemma_filter_len(wanted);
    }
}

/// Following the cursor comes to an end: where every edge can be read, so can every
/// page, and some page is the last.
pub proof fn following_the_cursor_ends(
    es: Seq<Entry>,
    repo: Seq<char>,
    id: RepoId,
    subject: Digest,
    artifact_type: Option<Seq<char>>,
    start: Option<Digest>,
    limit: nat,
) -> (pages: Seq<PageView>)
    requires
        ordered(es),
        repo_lookup(es, repo) == Ok::<Option<RepoId>, Fault>(Some(id)),
        edges_are_whole(es, id, subject),
        limit > 0,
        collected(
            edges_listed(es, PREFIX_REFERRER, id, subject, start),
            |e: Entry| referrer_in(e),
        ) is Ok,
    ensures
        read_through(es, repo, subject, artifact_type, start, limit, pages),
        pages.len() <= edges_listed(es, PREFIX_REFERRER, id, subject, start).len() + 1,
    decreases edges_listed(es, PREFIX_REFERRER, id, subject, start).len(),
{
    let list = edges_listed(es, PREFIX_REFERRER, id, subject, start);
    let read = |e: Entry| referrer_in(e);
    let rows = shown(list, limit);
    if collected(rows, read) is Err {
        lemma_collected_fault(list, read, rows.len() as int);
    }
    let page = referrers_answer(es, repo, subject, artifact_type, start, limit)->Ok_0;
    if page.1 is None {
        seq![page]
    } else {
        lemma_next_page_goes_on(es, repo, id, subject, artifact_type, start, limit);
        let behind = list.subrange(limit as int, list.len() as int);
        lemma_collected_rest(list, read, limit as int);
        let rest = following_the_cursor_ends(
            es,
            repo,
            id,
            subject,
            artifact_type,
            page.1,
            limit,
        );
        let pages = seq![page] + rest;
        assert forall|i: int| 0 <= i < pages.len() implies referrers_answer(
            es,
            repo,
            subject,
            artifact_type,
            begins_after(pages, start, i),
            limit,
        ) == Ok::<PageView, Fault>(#[trigger] pages[i]) by {
            if i > 0 {
                assert(rest[i - 1] == pages[i]);
                assert(begins_after(rest, page.1, i - 1) == begins_after(pages, start, i)) by {
                    if i > 1 {
                        assert(rest[i - 2] == pages[i - 1]);
                    }
                }
            }
        }
        assert forall|i: int| 0 <= i < pages.len() implies ((#[trigger] pages[i]).1 is None <==> i
            == pages.len() - 1) by {
            if i > 0 {
                assert(rest[i - 1] == pages[i]);
            }
        }
        pages
    }
}

/// The rest of what can be read can be read.
proof fn lemma_collected_rest<A, B>(
    s: Seq<A>,
    f: spec_fn(A) -> std::result::Result<B, Fault>,
    n: int,
)
    requires
        0 <= n <= s.len(),
        collected(s, f) is Ok,
    ensures
        collected(s.subrange(n, s.len() as int), f) is Ok,
    decreases s.len(),
{
    let rest = s.subrange(n, s.len() as int);
    if n < s.len() {
        lemma_collected_rest(s.drop_last(), f, n);
        assert(rest.drop_last() =~= s.drop_last().subrange(n, s.len() - 1));
    }
}

/// A repository that is not there, and a subject that nothing refers to, have no
/// referrers; neither is an error.
pub proof fn the_unknown_has_no_referrers(
    es: Seq<Entry>,
    repo: Seq<char>,
    subject: Digest,
    artifact_type: Option<Seq<char>>,
    start: Option<Digest>,
    limit: nat,
)
    requires
        match repo_lookup(es, repo) {
            Ok(None) => true,
            Ok(Some(id)) => edges_listed(es, PREFIX_REFERRER, id, subject, start).len() == 0,
            Err(_) => false,
        },
    ensures
        referrers_answer(es, repo, subject, artifact_type, start, limit) == Ok::<PageView, Fault>(
            (Seq::empty(), None, artifact_type is Some),
        ),
{
    reveal(Seq::filter);
    if let Ok(Some(id)) = repo_lookup(es, repo) {
        let rows = shown(edges_listed(es, PREFIX_REFERRER, id, subject, start), limit);
        assert(rows.len() == 0);
    }
}

/// A page that is filtered by type shows referrers of that type alone, and one that is
/// not shows any; it says which it is.
#[verifier::rlimit(40)]
pub proof fn a_filter_keeps_its_type_alone(
    es: Seq<Entry>,
    repo: Seq<char>,
    subject: Digest,
    wanted: Option<Seq<char>>,
    start: Option<Digest>,
    limit: nat,
    i: int,
)
    requires
        referrers_answer(es, repo, subject, wanted, start, limit) is Ok,
    ensures
        ({
            let (shown, _, filtered) = referrers_answer(
                es,
                repo,
                subject,
                wanted,
                start,
                limit,
            )->Ok_0;
            let (all, _, _) = referrers_answer(es, repo, subject, None, start, limit)->Ok_0;
            &&& filtered == (wanted is Some)
            &&& 0 <= i < shown.len() && wanted is Some ==> shown[i].1.artifact_type == wanted
            &&& referrers_answer(es, repo, subject, None, start, limit) is Ok
            &&& 0 <= i < shown.len() ==> all.contains(shown[i])
            &&& 0 <= i < all.len() && (wanted is None || all[i].1.artifact_type == wanted)
                ==> shown.contains(all[i])
        }),
{
    if let Ok(Some(id)) = repo_lookup(es, repo) {
        let list = edges_listed(es, PREFIX_REFERRER, id, subject, start);
        let rows = collected(shown(list, limit), |e: Entry| referrer_in(e))->Ok_0;
        let f = |r: (Digest, ReferrerView)| is_wanted(r, wanted);
        let any = |r: (Digest, ReferrerView)| is_wanted(r, None);
        let (kept, all) = (rows.filter(f), rows.filter(any));
        if 0 <= i < kept.len() {
            rows.lemma_filter_pred(f, i);
            assert(kept.contains(kept[i]));
            rows.lemma_filter_contains_rev(f, kept[i]);
            let x = choose|x: int| 0 <= x < rows.len() && rows[x] == kept[i];
            rows.lemma_filter_contains(any, x);
        }
        if 0 <= i < all.len() {
            assert(all.contains(all[i]));
            rows.lemma_filter_contains_rev(any, all[i]);
            let x = choose|x: int| 0 <= x < rows.len() && rows[x] == all[i];
            if wanted is None || all[i].1.artifact_type == wanted {
                rows.lemma_filter_contains(f, x);
            }
        }
    }
}

} // verus!
