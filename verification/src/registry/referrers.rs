//! The referrers query.
//!
//! A referrer edge carries the descriptor that a listing shows, so the whole
//! endpoint is one ordered prefix scan with the filter applied *during* it.
use vstd::prelude::*;

use crate::digest::Digest;
use crate::keys::{referrer, referrers_of, PREFIX_REFERRER};
use crate::meta::engine::{page_entries, Entry, MetaEngine};
use crate::registry::codec::{decode_referrer, referrer_of};
use crate::registry::discovery::edges_listed;
use crate::registry::error::{answers, corrupt, seen, Fault, RegistryError, Result};
use crate::registry::registry::{
    as_bytes, collected, digest_view, lemma_collected_fault, lemma_collected_step, repo_lookup,
    shown, text_view, Registry,
};
use crate::registry::suffix::{second_digest_after_repo, second_digest_of};
use crate::text::str_eq;
use crate::types::{ReferrerRecord, ReferrerView};

verus! {

#[derive(Debug, Clone, PartialEq, Eq)]
pub struct ReferrerEntry {
    pub digest: Digest,
    pub record: ReferrerRecord,
}

#[derive(Debug, Clone, PartialEq, Eq)]
pub struct ReferrerList {
    pub entries: Vec<ReferrerEntry>,
    /// Referrer digest to resume after. This advances over the *scanned* range,
    /// not over the entries returned, so a filtered page can come back short -
    /// even empty - with `next` still set.
    pub next: Option<Digest>,
    /// Whether the `artifactType` filter was applied, which the response must
    /// declare.
    pub filter_applied: bool,
}

impl DeepView for ReferrerEntry {
    type V = (Digest, ReferrerView);

    open spec fn deep_view(&self) -> Self::V {
        (self.digest, self.record.deep_view())
    }
}

impl DeepView for ReferrerList {
    type V = (Seq<(Digest, ReferrerView)>, Option<Digest>, bool);

    open spec fn deep_view(&self) -> Self::V {
        (self.entries.deep_view(), self.next, self.filter_applied)
    }
}

/// The referrer and descriptor that an edge holds.
pub open spec fn referrer_in(e: Entry) -> std::result::Result<(Digest, ReferrerView), Fault> {
    match second_digest_of(e.0) {
        None => Err(corrupt("referrer key"@)),
        Some(d) => match referrer_of(e.1) {
            Some(r) => Ok((d, r)),
            None => Err(corrupt("ReferrerRecord"@)),
        },
    }
}

/// The descriptor is of the wanted type, where one is wanted.
pub open spec fn is_wanted(r: (Digest, ReferrerView), artifact_type: Option<Seq<char>>) -> bool {
    artifact_type matches Some(wanted) ==> r.1.artifact_type == Some(wanted)
}

pub open spec fn referrers_answer(
    es: Seq<Entry>,
    repo: Seq<char>,
    subject: Digest,
    artifact_type: Option<Seq<char>>,
    start_after: Option<Digest>,
    limit: nat,
) -> std::result::Result<(Seq<(Digest, ReferrerView)>, Option<Digest>, bool), Fault> {
    match repo_lookup(es, repo) {
        Err(e) => Err(e),
        Ok(None) => Ok((Seq::empty(), None, artifact_type is Some)),
        Ok(Some(id)) => {
            let list = edges_listed(es, PREFIX_REFERRER, id, subject, start_after);
            match collected(shown(list, limit), |e: Entry| referrer_in(e)) {
                Err(e) => Err(e),
                Ok(all) => Ok(
                    (
                        all.filter(|r: (Digest, ReferrerView)| is_wanted(r, artifact_type)),
                        if 0 < limit < list.len() {
                            Some(all.last().0)
                        } else {
                            None
                        },
                        artifact_type is Some,
                    ),
                ),
            }
        },
    }
}

impl<E: MetaEngine> Registry<E> {
    /// Referrers of one subject, in digest order, optionally filtered.
    ///
    /// A missing repository or an unknown subject is an empty list, never an
    /// error: a referrers request is not to be answered with a 404.
    ///
    /// The filter is applied inside the scan and the cursor advances over the raw
    /// edge range, so a page may hold fewer entries than `limit` while more
    /// matches exist further on, and the caller pages until `next` is `None`.
    /// Refilling until the page is full would make a single request scan an
    /// unbounded number of edges whenever the requested type is rare.
    #[verifier::loop_isolation(false)]
    pub fn referrers(
        &self,
        repo: &str,
        subject: &Digest,
        artifact_type: Option<&str>,
        start_after: Option<&Digest>,
        limit: usize,
    ) -> (r: Result<ReferrerList>)
        requires
            self.valid(),
        ensures
            answers(
                seen(r),
                referrers_answer(
                    self.entries(),
                    repo@,
                    *subject,
                    text_view(artifact_type),
                    digest_view(start_after),
                    limit as nat,
                ),
                self.reliable(),
            ),
    {
        let filter_applied = artifact_type.is_some();
        let id = match self.lookup_repo(repo) {
            Ok(Some(id)) => id,
            Ok(None) => {
                let entries: Vec<ReferrerEntry> = Vec::new();
                assert(entries.deep_view() =~= Seq::empty());
                return Ok(ReferrerList { entries, next: None, filter_applied });
            },
            Err(e) => return Err(e),
        };
        let scope = referrers_of(id, subject);
        let cursor = match start_after {
            Some(d) => Some(referrer(id, subject, d)),
            None => None,
        };
        let page = match self.page(scope.as_slice(), as_bytes(&cursor), limit) {
            Ok(page) => page,
            Err(e) => return Err(e),
        };
        let ghost es = self.entries();
        let ghost list = edges_listed(es, PREFIX_REFERRER, id, *subject, digest_view(start_after));
        let ghost rows = page_entries(page.entries@);
        let ghost read = |e: Entry| referrer_in(e);
        let ghost wanted = |r: (Digest, ReferrerView)| is_wanted(r, text_view(artifact_type));
        let ghost mut all: Seq<(Digest, ReferrerView)> = Seq::empty();
        let mut entries: Vec<ReferrerEntry> = Vec::new();
        let mut last: Option<Digest> = None;
        proof {
            reveal(Seq::filter);
            assert(entries.deep_view() =~= all.filter(wanted));
            assert(rows.subrange(0, 0) =~= Seq::empty());
        }
        let mut i: usize = 0;
        while i < page.entries.len()
            invariant
                i <= page.entries@.len(),
                collected(rows.subrange(0, i as int), read) == Ok::<
                    Seq<(Digest, ReferrerView)>,
                    Fault,
                >(all),
                all.len() == i,
                entries.deep_view() == all.filter(wanted),
                last == if i == 0 {
                    None
                } else {
                    Some(all.last().0)
                },
            decreases page.entries@.len() - i,
        {
            proof {
                assert(rows[i as int].0 == page.entries@[i as int].0@);
                assert(rows[i as int].1 == page.entries@[i as int].1@);
                lemma_collected_step(rows, read, i as int);
                reveal(Seq::filter);
            }
            let digest = match second_digest_after_repo(page.entries[i].0.as_slice()) {
                Some(d) => d,
                None => {
                    proof {
                        lemma_collected_fault(rows, read, i + 1);
                    }
                    return Err(RegistryError::corrupt("referrer key"));
                },
            };
            let record = match decode_referrer(page.entries[i].1.as_slice()) {
                Ok(record) => record,
                Err(e) => {
                    proof {
                        lemma_collected_fault(rows, read, i + 1);
                    }
                    return Err(e);
                },
            };
            let keep = match artifact_type {
                Some(wanted) => match &record.artifact_type {
                    Some(have) => str_eq(have.as_str(), wanted),
                    None => false,
                },
                None => true,
            };
            let ghost row = (digest, record.deep_view());
            proof {
                assert(all.push(row).drop_last() =~= all);
                all = all.push(row);
            }
            if keep {
                let ghost before = entries.deep_view();
                entries.push(ReferrerEntry { digest, record });
                assert(entries.deep_view() =~= before.push(row));
            }
            last = Some(digest);
            i += 1;
        }
        proof {
            assert(rows.subrange(0, i as int) =~= rows);
        }
        let next = match &page.next {
            Some(_) => last,
            None => None,
        };
        Ok(ReferrerList { entries, next, filter_applied })
    }
}

} // verus!
