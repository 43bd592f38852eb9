//! A registry over stores: the decisions that belong to neither the handlers nor
//! the stores.
//!
//! - **Bytes land before metadata.** An orphan blob is garbage that can be
//!   reclaimed; metadata naming a blob that is not there is corruption.
//! - **A pull streams.** A window is resolved against the file that is read.
//! - **Failures arrive in the vocabulary of the protocol.**
use vstd::prelude::*;

use crate::digest::Digest;
use crate::error::SummError;
use crate::registry::error::RegistryError;
use crate::registry::referrers::{ReferrerEntry, ReferrerList};
use crate::registry::discovery::RepoList;
use crate::registry::reference::Reference as OpsReference;
use crate::server::error::ErrorCode;
use crate::server::handlers::common::ops_failure;
use crate::server::range::ByteRange;
use crate::server::reference::{Reference, Referred};
use crate::server::seam::{ceiling, Descriptor, OpsError, OpsResult, Page, Referrers};
use crate::storage::algorithm::DigestAlgorithm;
use crate::storage::read::{resolved, Blob, BlobStream};
use crate::storage::read;
use crate::storage::upload::{is_upload_id, UploadId};
use crate::text::{debug_quoted, debug_text, decimal, decimal_text, str_eq};
use crate::types::UploadSession;

verus! {

/// How many referrers one request will scan at most.
pub const REFERRERS_LIMIT: usize = 1000;

/// Which metadata engine is opened.
#[derive(Debug, Clone, Copy, PartialEq, Eq, Structural)]
pub enum Engine {
    Rocks,
    Redb,
}

// --- failures ------------------------------------------------------------------

/// Whether a registry failure is told as it should be. Several conditions collapse
/// onto one, and none leaks a storage concept upward.
pub open spec fn tells(e: RegistryError, told: OpsError) -> bool {
    match e {
        RegistryError::NameUnknown { .. } => told is RepoUnknown,
        RegistryError::ManifestUnknown { .. } => told is ManifestUnknown,
        RegistryError::BlobUnknown { .. } => told is BlobUnknown,
        RegistryError::DigestInvalid { .. } => told is DigestMismatch,
        RegistryError::TagInvalid { tag, reason } => told matches OpsError::ManifestInvalid(m) && m@
            == "tag "@ + debug_text(tag@) + ": "@ + reason@,
        RegistryError::ManifestInvalid { reason } => told == OpsError::ManifestInvalid(reason),
        RegistryError::ManifestBlobUnknown { repo, digest } => told
            == (OpsError::ManifestBlobUnknown { digest }),
        RegistryError::Meta(e) => told matches OpsError::Internal(m) && m@ == e.text(),
    }
}

/// A registry failure in the vocabulary of the protocol.
pub fn ops_error(e: RegistryError) -> (r: OpsError)
    ensures
        tells(e, r),
{
    match e {
        RegistryError::NameUnknown { .. } => OpsError::RepoUnknown,
        RegistryError::ManifestUnknown { .. } => OpsError::ManifestUnknown,
        RegistryError::BlobUnknown { .. } => OpsError::BlobUnknown,
        RegistryError::DigestInvalid { .. } => OpsError::DigestMismatch,
        RegistryError::TagInvalid { tag, reason } => {
            let mut m = "tag ".to_owned();
            m.append(debug_quoted(tag.as_str()).as_str());
            m.append(": ");
            m.append(reason.as_str());
            OpsError::ManifestInvalid(m)
        },
        RegistryError::ManifestInvalid { reason } => OpsError::ManifestInvalid(reason),
        RegistryError::ManifestBlobUnknown { repo: _, digest } => OpsError::ManifestBlobUnknown {
            digest,
        },
        RegistryError::Meta(e) => OpsError::Internal(e.message()),
    }
}

/// What a blob store's failure is told as. A digest that does not match is the
/// client's error, not this side's.
pub open spec fn store_failure(e: SummError) -> OpsError {
    match e {
        SummError::NotFound => OpsError::BlobUnknown,
        SummError::InvalidDigest(_) => OpsError::DigestMismatch,
        SummError::InvalidData(m) => OpsError::Internal(m),
        SummError::Storage(m) => OpsError::Internal(m),
    }
}

pub fn storage_error(e: SummError) -> (r: OpsError)
    ensures
        r == store_failure(e),
{
    match e {
        SummError::NotFound => OpsError::BlobUnknown,
        SummError::InvalidDigest(_) => OpsError::DigestMismatch,
        SummError::InvalidData(m) => OpsError::Internal(m),
        SummError::Storage(m) => OpsError::Internal(m),
    }
}

// --- what is asked of the stores ----------------------------------------------

/// The server's reference as the registry's own. The two say the same: the tag
/// grammars agree.
pub fn as_ops_reference(reference: &Reference) -> (r: OpsReference)
    ensures
        match (reference.deep_view(), r) {
            (Referred::Tag(t), OpsReference::Tag(s)) => s@ == t,
            (Referred::Digest(d), OpsReference::Digest(e)) => e == d,
            _ => false,
        },
{
    match reference {
        Reference::Tag(t) => OpsReference::Tag(t.as_str().to_owned()),
        Reference::Digest(d) => OpsReference::Digest(*d),
    }
}

/// The staging file of an upload. An identifier that names no file names no
/// upload either.
pub fn staging_id(id: &str) -> (r: OpsResult<UploadId>)
    ensures
        match r {
            Ok(u) => is_upload_id(id@) && u.text() == id@,
            Err(e) => !is_upload_id(id@) && e is UploadUnknown,
        },
{
    match UploadId::new(id) {
        Ok(u) => Ok(u),
        Err(_) => Err(OpsError::UploadUnknown),
    }
}

/// The algorithm that a new upload is hashed under.
pub fn session_algorithm(name: &str) -> (r: OpsResult<DigestAlgorithm>)
    ensures
        match r {
            Ok(a) => a.name() == name@,
            Err(e) => !is_algorithm(name@) && (e matches OpsError::ManifestInvalid(m) && m@
                == "invalid digest: "@ + ("unsupported digest algorithm "@ + debug_text(name@))),
        },
{
    match DigestAlgorithm::from_name(name) {
        Ok(a) => Ok(a),
        Err(e) => Err(OpsError::ManifestInvalid(e.message())),
    }
}

/// Whether a repository may serve a blob. A store that cannot tell is no
/// permission.
pub fn check_servable(servable: Result<bool, RegistryError>) -> (r: OpsResult<()>)
    ensures
        if servable == Ok::<bool, RegistryError>(true) {
            r is Ok
        } else {
            r == Err::<(), OpsError>(OpsError::BlobUnknown)
        },
{
    match servable {
        Ok(true) => Ok(()),
        _ => Err(OpsError::BlobUnknown),
    }
}

/// The size under which a blob is mounted, or `None` where it is not. A named
/// source must itself be allowed to serve it, else content would be laundered
/// across a boundary; without one, the question is only whether it exists at all.
pub fn mountable(source_serves: Option<bool>, recorded: Option<u64>) -> (r: Option<u64>)
    ensures
        r == if source_serves == Some(false) {
            None
        } else {
            recorded
        },
{
    match source_serves {
        Some(false) => None,
        _ => recorded,
    }
}

/// What was looked for, where it was found: nothing found is an unknown manifest.
pub fn found_manifest<T>(found: Result<Option<T>, RegistryError>) -> (r: OpsResult<T>)
    ensures
        match found {
            Ok(Some(t)) => r == Ok::<T, OpsError>(t),
            Ok(None) => r == Err::<T, OpsError>(OpsError::ManifestUnknown),
            Err(e) => r is Err && tells(e, r->Err_0),
        },
{
    match found {
        Ok(Some(t)) => Ok(t),
        Ok(None) => Err(OpsError::ManifestUnknown),
        Err(e) => Err(ops_error(e)),
    }
}

// --- bodies --------------------------------------------------------------------

/// A body being written through, frame by frame.
#[derive(Debug, Clone, Copy)]
pub struct Drain {
    declared: Option<u64>,
    limit: Option<u64>,
    written: u64,
}

impl Drain {
    pub closed spec fn expected(self) -> Option<u64> {
        self.declared
    }

    pub closed spec fn most(self) -> u64 {
        ceiling(self.limit)
    }

    /// How much has been let through.
    pub closed spec fn total(self) -> u64 {
        self.written
    }

    pub fn new(declared: Option<u64>, limit: Option<u64>) -> (r: Drain)
        ensures
            r.expected() == declared,
            r.most() == ceiling(limit),
            r.total() == 0,
    {
        Drain { declared, limit, written: 0 }
    }

    /// Whether a frame of `len` bytes may be written. The ceiling is enforced
    /// before the offending frame is written, so that an over-long body cannot
    /// fill a disk on its way to being rejected.
    pub fn take_in(&mut self, len: u64) -> (r: OpsResult<()>)
        ensures
            final(self).expected() == old(self).expected(),
            final(self).most() == old(self).most(),
            if old(self).total() + len > old(self).most() {
                r == Err::<(), OpsError>(OpsError::BodyTooLarge { limit: old(self).most() })
            } else {
                r is Ok && final(self).total() == old(self).total() + len
            },
            r is Err ==> final(self).total() == old(self).total(),
    {
        let limit = match self.limit {
            Some(n) => n,
            None => u64::MAX,
        };
        match self.written.checked_add(len) {
            Some(sum) => if sum > limit {
                Err(OpsError::BodyTooLarge { limit })
            } else {
                self.written = sum;
                Ok(())
            },
            None => Err(OpsError::BodyTooLarge { limit }),
        }
    }

    /// Whether the body that ended here carried what it declared.
    pub fn finish(&self) -> (r: OpsResult<u64>)
        ensures
            r == if self.expected() matches Some(n) && n != self.total() {
                Err::<u64, OpsError>(
                    OpsError::SizeMismatch { declared: self.expected()->0, actual: self.total() },
                )
            } else {
                Ok(self.total())
            },
    {
        if let Some(declared) = self.declared {
            if declared != self.written {
                return Err(OpsError::SizeMismatch { declared, actual: self.written });
            }
        }
        Ok(self.written)
    }
}

// --- pulls ---------------------------------------------------------------------

/// The words for a window that the file does not have.
pub open spec fn window_words(w: ByteRange, digest: Digest, total: u64) -> Seq<char> {
    "range "@ + decimal(w.start as nat) + "-"@ + decimal(w.end as nat) + " outside blob "@
        + digest.text() + " of "@ + decimal(total as nat) + " bytes"@
}

/// The reads that serve a window of a blob, or all of it.
///
/// The handler resolved the window against the recorded size before asking, so a
/// window that the file does not have means that the two sizes disagree:
/// corruption, not a client error.
pub fn stream_of(blob: &Blob, window: Option<ByteRange>, digest: &Digest) -> (r: OpsResult<BlobStream>)
    ensures
        match window {
            None => r is Ok && (r->Ok_0).valid() && (r->Ok_0).next() == 0 && (r->Ok_0).end()
                == blob.bytes() && (r->Ok_0).chunk() == blob.chunk(),
            Some(w) => match resolved(
                read::ByteRange::Inclusive { start: w.start, end: w.end },
                blob.bytes() as int,
            ) {
                Some((first, last)) => r is Ok && (r->Ok_0).valid() && (r->Ok_0).next() == first && (
                r->Ok_0).end() == last + 1 && (r->Ok_0).chunk() == blob.chunk(),
                None => r matches Err(OpsError::Internal(m)) && m@ == window_words(
                    w,
                    *digest,
                    blob.bytes(),
                ),
            },
        },
{
    match window {
        None => Ok((*blob).stream()),
        Some(w) => {
            match blob.resolve(read::ByteRange::Inclusive { start: w.start, end: w.end }) {
                Some(range) => Ok((*blob).stream_range(range)),
                None => {
                    let mut m = "range ".to_owned();
                    m.append(decimal_text(w.start).as_str());
                    m.append("-");
                    m.append(decimal_text(w.end).as_str());
                    m.append(" outside blob ");
                    m.append(digest.to_text().as_str());
                    m.append(" of ");
                    m.append(decimal_text(blob.size()).as_str());
                    m.append(" bytes");
                    Err(OpsError::Internal(m))
                },
            }
        },
    }
}

// --- pushes --------------------------------------------------------------------

/// What a push is for.
#[derive(Debug, Clone, Copy)]
pub enum Goal {
    /// A whole blob in one request.
    Whole,
    /// One chunk of an upload, to begin at an offset.
    Chunk { expected_offset: u64 },
    /// The end of an upload, with a last chunk that begins at an offset.
    Finish { expected_offset: u64, digest: Digest },
    /// A new upload.
    Create,
    /// An upload that is given up.
    Cancel,
}

/// What is to be done next.
#[derive(Debug)]
pub enum Step {
    /// Read the session's record.
    Look,
    /// Open the staging file: a new one, or the session's.
    Open(Option<UploadSession>),
    /// Write the body through to it.
    Drain(Option<UploadSession>),
    /// Verify, sync and rename it into place.
    Commit,
    /// Write the session's record back.
    Save(UploadSession),
    /// Record the blob, of this size, and retire the session.
    Store(u64),
    /// Write the new session's record.
    Record,
    /// Remove the session's record: it is what makes the upload findable.
    Retire,
    /// Remove the staging file, now that nothing points at it.
    Sweep,
    /// Remove the staging file: nobody will ever ask for it again.
    Clear(OpsError),
    /// Answer: the offset or the size that was reached, or the failure.
    Done(OpsResult<u64>),
}

/// What became of it.
#[derive(Debug)]
pub enum Event {
    Looked(Result<Option<UploadSession>, RegistryError>),
    Opened(Result<(), SummError>),
    /// The offset reached, the hasher's state there, and the time.
    Drained(OpsResult<(u64, Vec<u8>, u64)>),
    Committed(Result<u64, SummError>),
    Written(Result<(), RegistryError>),
    Swept(Result<(), SummError>),
    Cleared,
}

/// Why a session is not the one that a push continues.
pub open spec fn session_objection(goal: Goal, s: UploadSession) -> Option<OpsError> {
    match goal {
        Goal::Whole | Goal::Create | Goal::Cancel => None,
        Goal::Chunk { expected_offset } => if s.offset != expected_offset {
            Some(OpsError::OffsetMismatch { current: s.offset })
        } else {
            None
        },
        Goal::Finish { expected_offset, digest } => if s.offset != expected_offset {
            Some(OpsError::OffsetMismatch { current: s.offset })
        } else if s.algorithm@ != digest.algorithm_name() {
            Some(OpsError::DigestMismatch)
        } else {
            None
        },
    }
}

/// Whether `next` is the session `s` after a chunk was written.
pub open spec fn advances(
    s: UploadSession,
    next: UploadSession,
    offset: u64,
    state: Seq<u8>,
    now: u64,
) -> bool {
    &&& next.repo == s.repo
    &&& next.started_at == s.started_at
    &&& next.algorithm == s.algorithm
    &&& next.offset == offset
    &&& next.updated_at == now
    &&& next.hasher_state matches Some(h) && h@ == state
}

/// Whether an algorithm is one that content is hashed under.
pub open spec fn is_algorithm(name: Seq<char>) -> bool {
    name == "sha256"@ || name == "sha512"@
}

/// Whether `next` is what is to be done after `step` came out as `event`. A failed
/// single push clears its staging file; a failed session is left as it is, so that
/// the client can retry. What came out of another step changes nothing.
pub open spec fn follows(goal: Goal, step: Step, event: Event, next: Step) -> bool {
    match (step, event) {
        (Step::Look, Event::Looked(Err(e))) => next matches Step::Done(Err(told)) && tells(e, told),
        (Step::Look, Event::Looked(Ok(None))) => next == Step::Done(Err(OpsError::UploadUnknown)),
        (Step::Look, Event::Looked(Ok(Some(s)))) => match session_objection(goal, s) {
            Some(e) => next == Step::Done(Err(e)),
            None => if goal is Cancel {
                next == Step::Retire
            } else if is_algorithm(s.algorithm@) {
                next == Step::Open(Some(s))
            } else {
                next matches Step::Done(Err(OpsError::Internal(m))) && m@
                    == "invalid digest: "@ + ("unsupported digest algorithm "@ + debug_text(
                    s.algorithm@,
                ))
            },
        },
        (Step::Open(s), Event::Opened(Ok(_))) => if goal is Create {
            next == Step::Record
        } else {
            next == Step::Drain(s)
        },
        (Step::Open(_), Event::Opened(Err(e))) => next == Step::Done(Err(store_failure(e))),
        (Step::Drain(_), Event::Drained(Err(e))) => if goal is Whole {
            next == Step::Clear(e)
        } else {
            next == Step::Done(Err(e))
        },
        (Step::Drain(s), Event::Drained(Ok((offset, state, now)))) => match (goal, s) {
            (Goal::Chunk { .. }, Some(s)) => next matches Step::Save(saved) && advances(
                s,
                saved,
                offset,
                state@,
                now,
            ),
            _ => next == Step::Commit,
        },
        (Step::Commit, Event::Committed(Ok(size))) => next == Step::Store(size),
        (Step::Commit, Event::Committed(Err(e))) => if goal is Whole {
            next == Step::Clear(store_failure(e))
        } else {
            next == Step::Done(Err(store_failure(e)))
        },
        (Step::Save(s), Event::Written(Ok(_))) => next == Step::Done(Ok(s.offset)),
        (Step::Store(size), Event::Written(Ok(_))) => next == Step::Done(Ok(size)),
        (Step::Save(_), Event::Written(Err(e))) => next matches Step::Done(Err(told)) && tells(
            e,
            told,
        ),
        (Step::Store(_), Event::Written(Err(e))) => next matches Step::Done(Err(told)) && tells(
            e,
            told,
        ),
        (Step::Record, Event::Written(Ok(_))) => next == Step::Done(Ok(0)),
        (Step::Record, Event::Written(Err(e))) => next matches Step::Done(Err(told)) && tells(
            e,
            told,
        ),
        (Step::Retire, Event::Written(Ok(_))) => next == Step::Sweep,
        (Step::Retire, Event::Written(Err(e))) => next matches Step::Done(Err(told)) && tells(
            e,
            told,
        ),
        (Step::Sweep, Event::Swept(Ok(_))) => next == Step::Done(Ok(0)),
        (Step::Sweep, Event::Swept(Err(e))) => next == Step::Done(Err(store_failure(e))),
        (Step::Clear(e), Event::Cleared) => next == Step::Done(Err(e)),
        (step, _) => next == step,
    }
}

impl Goal {
    /// Where a push begins: a session is looked up before a file is touched, and a
    /// new one gets its file before its record.
    pub fn first_step(self) -> (r: Step)
        ensures
            r == if self is Whole || self is Create {
                Step::Open(None)
            } else {
                Step::Look
            },
    {
        match self {
            Goal::Whole | Goal::Create => Step::Open(None),
            _ => Step::Look,
        }
    }

    /// Why a session is not the one that this push continues. Checked before the
    /// file is touched: a rejected chunk leaves the session byte-identical.
    pub fn objection(self, s: &UploadSession) -> (r: Option<OpsError>)
        ensures
            r == session_objection(self, *s),
    {
        match self {
            Goal::Whole | Goal::Create | Goal::Cancel => None,
            Goal::Chunk { expected_offset } => if s.offset != expected_offset {
                Some(OpsError::OffsetMismatch { current: s.offset })
            } else {
                None
            },
            Goal::Finish { expected_offset, digest } => if s.offset != expected_offset {
                Some(OpsError::OffsetMismatch { current: s.offset })
            } else if !str_eq(s.algorithm.as_str(), digest.algorithm()) {
                Some(OpsError::DigestMismatch)
            } else {
                None
            },
        }
    }

    /// What is to be done next.
    pub fn next_step(self, step: Step, event: Event) -> (r: Step)
        ensures
            follows(self, step, event, r),
    {
        match (step, event) {
            (Step::Look, Event::Looked(Err(e))) => Step::Done(Err(ops_error(e))),
            (Step::Look, Event::Looked(Ok(None))) => Step::Done(Err(OpsError::UploadUnknown)),
            (Step::Look, Event::Looked(Ok(Some(s)))) => match self.objection(&s) {
                Some(e) => Step::Done(Err(e)),
                None => if let Goal::Cancel = self {
                    Step::Retire
                } else {
                    match DigestAlgorithm::from_name(s.algorithm.as_str()) {
                        Ok(_) => Step::Open(Some(s)),
                        Err(e) => Step::Done(Err(OpsError::Internal(e.message()))),
                    }
                },
            },
            (Step::Open(s), Event::Opened(Ok(_))) => match self {
                Goal::Create => Step::Record,
                _ => Step::Drain(s),
            },
            (Step::Open(_), Event::Opened(Err(e))) => Step::Done(Err(storage_error(e))),
            (Step::Drain(_), Event::Drained(Err(e))) => match self {
                Goal::Whole => Step::Clear(e),
                _ => Step::Done(Err(e)),
            },
            (Step::Drain(s), Event::Drained(Ok((offset, state, now)))) => match (self, s) {
                (Goal::Chunk { .. }, Some(s)) => Step::Save(
                    UploadSession {
                        offset,
                        updated_at: now,
                        hasher_state: Some(state),
                        repo: s.repo,
                        started_at: s.started_at,
                        algorithm: s.algorithm,
                    },
                ),
                _ => Step::Commit,
            },
            (Step::Commit, Event::Committed(Ok(size))) => Step::Store(size),
            (Step::Commit, Event::Committed(Err(e))) => match self {
                Goal::Whole => Step::Clear(storage_error(e)),
                _ => Step::Done(Err(storage_error(e))),
            },
            (Step::Save(s), Event::Written(Ok(_))) => Step::Done(Ok(s.offset)),
            (Step::Store(size), Event::Written(Ok(_))) => Step::Done(Ok(size)),
            (Step::Save(_), Event::Written(Err(e))) => Step::Done(Err(ops_error(e))),
            (Step::Store(_), Event::Written(Err(e))) => Step::Done(Err(ops_error(e))),
            (Step::Record, Event::Written(Ok(_))) => Step::Done(Ok(0)),
            (Step::Record, Event::Written(Err(e))) => Step::Done(Err(ops_error(e))),
            (Step::Retire, Event::Written(Ok(_))) => Step::Sweep,
            (Step::Retire, Event::Written(Err(e))) => Step::Done(Err(ops_error(e))),
            (Step::Sweep, Event::Swept(Ok(_))) => Step::Done(Ok(0)),
            (Step::Sweep, Event::Swept(Err(e))) => Step::Done(Err(storage_error(e))),
            (Step::Clear(e), Event::Cleared) => Step::Done(Err(e)),
            (step, _) => step,
        }
    }
}

/// Metadata names a blob only once its bytes are in place.
pub proof fn bytes_land_before_metadata(goal: Goal, step: Step, event: Event, size: u64)
    requires
        follows(goal, step, event, Step::Store(size)),
        step !is Store,
    ensures
        step is Commit,
        event == Event::Committed(Ok(size)),
{
}

/// A new session has its file before it has a record, so that no record ever
/// points at a file that was not there.
pub proof fn a_session_is_recorded_after_its_file(goal: Goal, step: Step, event: Event)
    requires
        follows(goal, step, event, Step::Record),
        step !is Record,
    ensures
        goal is Create,
        step is Open,
        event matches Event::Opened(Ok(_)),
{
}

/// An upload that is given up loses its record before it loses its file: an
/// orphaned file is garbage, a record without one is not.
pub proof fn a_session_is_retired_before_its_file(goal: Goal, step: Step, event: Event)
    requires
        follows(goal, step, event, Step::Sweep),
        step !is Sweep,
    ensures
        step is Retire,
        event matches Event::Written(Ok(_)),
{
}

/// A session's record changes only after a whole chunk was written, so a chunk
/// that is refused or breaks off leaves it as it was. What is saved is the session
/// that was continued, at the place where the bytes ended: the offset and the
/// hasher's state are those that the drain reported, whatever the session held
/// before.
pub proof fn a_session_moves_only_with_its_bytes(
    goal: Goal,
    step: Step,
    event: Event,
    saved: UploadSession,
)
    requires
        follows(goal, step, event, Step::Save(saved)),
        step !is Save,
    ensures
        goal is Chunk,
        step matches Step::Drain(Some(s)) && saved.repo == s.repo && saved.started_at
            == s.started_at && saved.algorithm@ == s.algorithm@,
        event matches Event::Drained(Ok((offset, state, now))) && saved.offset == offset
            && saved.updated_at == now && (saved.hasher_state matches Some(h) && h@ == state@),
{
}

/// A chunk that was written is saved: the next request resumes where its bytes
/// ended, and is told so.
pub proof fn a_drained_chunk_is_saved_and_answered(
    expected_offset: u64,
    s: UploadSession,
    offset: u64,
    state: Vec<u8>,
    now: u64,
    next: Step,
    last: Step,
)
    requires
        follows(
            Goal::Chunk { expected_offset },
            Step::Drain(Some(s)),
            Event::Drained(Ok((offset, state, now))),
            next,
        ),
        follows(Goal::Chunk { expected_offset }, next, Event::Written(Ok(())), last),
    ensures
        next matches Step::Save(saved) && saved.offset == offset && (
        saved.hasher_state matches Some(h) && h@ == state@),
        last == Step::Done(Ok(offset)),
{
}

/// A session is continued exactly where it stands. A push that expects another
/// place is refused with the place where the session is, and the file is not opened;
/// one that closes a session under another algorithm than it was hashed under is
/// refused too. What is opened is the session as it was read.
pub proof fn a_session_is_continued_where_it_stands(goal: Goal, s: UploadSession, next: Step)
    requires
        goal is Chunk || goal is Finish,
        follows(goal, Step::Look, Event::Looked(Ok(Some(s))), next),
    ensures
        ({
            let expected = match goal {
                Goal::Chunk { expected_offset } => expected_offset,
                Goal::Finish { expected_offset, .. } => expected_offset,
                _ => 0,
            };
            let same_hash = match goal {
                Goal::Finish { digest, .. } => s.algorithm@ == digest.algorithm_name(),
                _ => true,
            };
            &&& s.offset != expected ==> next == Step::Done(
                Err(OpsError::OffsetMismatch { current: s.offset }),
            )
            &&& s.offset == expected && !same_hash ==> next == Step::Done(
                Err(OpsError::DigestMismatch),
            )
            &&& s.offset == expected && same_hash && (s.algorithm@ == "sha256"@ || s.algorithm@
                == "sha512"@) ==> next == Step::Open(Some(s))
            &&& next is Open ==> next == Step::Open(Some(s))
        }),
{
}

/// A file that was opened is written to, and one that was written to the end of a
/// whole blob is committed; what the commit says is what is recorded and answered.
pub proof fn a_push_goes_from_file_to_record(
    goal: Goal,
    s: Option<UploadSession>,
    drained: (u64, Vec<u8>, u64),
    size: u64,
    opened: Step,
    written: Step,
    committed: Step,
    stored: Step,
)
    requires
        goal is Whole || goal is Finish,
        follows(goal, Step::Open(s), Event::Opened(Ok(())), opened),
        follows(goal, opened, Event::Drained(Ok(drained)), written),
        follows(goal, written, Event::Committed(Ok(size)), committed),
        follows(goal, committed, Event::Written(Ok(())), stored),
    ensures
        opened == Step::Drain(s),
        written == Step::Commit,
        committed == Step::Store(size),
        stored == Step::Done(Ok(size)),
{
}

/// A push succeeds only with what it did: a chunk with the offset that was saved, a
/// blob with the size that was recorded, and a session opened or given up with
/// nothing. Nothing succeeds before it was written.
pub proof fn success_says_what_was_written(goal: Goal, step: Step, event: Event, n: u64)
    requires
        follows(goal, step, event, Step::Done(Ok(n))),
        step !is Done,
    ensures
        match step {
            Step::Save(s) => n == s.offset && (event matches Event::Written(Ok(_))),
            Step::Store(size) => n == size && (event matches Event::Written(Ok(_))),
            Step::Record => n == 0 && (event matches Event::Written(Ok(_))),
            Step::Sweep => n == 0 && (event matches Event::Swept(Ok(_))),
            _ => false,
        },
{
}

/// A failure ends a push: it is answered, or the staging file of a single push is
/// cleared first and then it is answered. Nothing is written after a failure.
pub proof fn a_failure_ends_a_push(goal: Goal, step: Step, event: Event, next: Step)
    requires
        follows(goal, step, event, next),
        match (step, event) {
            (Step::Look, Event::Looked(Err(_))) => true,
            (Step::Look, Event::Looked(Ok(None))) => true,
            (Step::Open(_), Event::Opened(Err(_))) => true,
            (Step::Drain(_), Event::Drained(Err(_))) => true,
            (Step::Commit, Event::Committed(Err(_))) => true,
            (Step::Save(_), Event::Written(Err(_))) => true,
            (Step::Store(_), Event::Written(Err(_))) => true,
            (Step::Record, Event::Written(Err(_))) => true,
            (Step::Retire, Event::Written(Err(_))) => true,
            (Step::Sweep, Event::Swept(Err(_))) => true,
            (Step::Clear(_), Event::Cleared) => true,
            _ => false,
        },
    ensures
        match next {
            Step::Done(answer) => answer is Err,
            Step::Clear(_) => goal is Whole,
            _ => false,
        },
        (step, event) matches (Step::Drain(_), Event::Drained(Err(e))) ==> next == Step::Clear(e)
            || next == Step::Done(Err(e)),
        (step, event) matches (Step::Clear(e), Event::Cleared) ==> next == Step::Done(Err(e)),
        (step, event) matches (Step::Look, Event::Looked(Ok(None))) ==> next == Step::Done(
            Err(OpsError::UploadUnknown),
        ),
        (step, event) matches (Step::Commit, Event::Committed(Err(SummError::InvalidDigest(_))))
            ==> next == Step::Clear(OpsError::DigestMismatch) || next == Step::Done(
            Err(OpsError::DigestMismatch),
        ),
{
}

/// An upload that is given up is retired and swept, and nothing else happens to it.
pub proof fn an_upload_that_is_given_up_is_retired_and_swept(
    s: UploadSession,
    looked: Step,
    retired: Step,
    swept: Step,
)
    requires
        follows(Goal::Cancel, Step::Look, Event::Looked(Ok(Some(s))), looked),
        follows(Goal::Cancel, looked, Event::Written(Ok(())), retired),
        follows(Goal::Cancel, retired, Event::Swept(Ok(())), swept),
    ensures
        looked == Step::Retire,
        retired == Step::Sweep,
        swept == Step::Done(Ok(0)),
{
}

/// A failed single push leaves nothing staged: it is done only after its staging
/// file was cleared, or was never opened.
pub proof fn a_failed_single_push_leaves_nothing_staged(step: Step, event: Event, e: OpsError)
    requires
        follows(Goal::Whole, step, event, Step::Done(Err(e))),
    ensures
        step !is Drain,
        step !is Commit,
{
}

// --- listings ------------------------------------------------------------------

/// A page of repository names.
pub fn repositories_page(list: RepoList) -> (r: Page<String>)
    ensures
        r.items == list.repos,
        r.more == (list.next is Some),
{
    Page { more: list.next.is_some(), items: list.repos }
}

/// Whether a descriptor says what a referrer's record says.
pub open spec fn is_entry(d: Descriptor, e: ReferrerEntry) -> bool {
    &&& d.media_type == e.record.media_type
    &&& d.digest == e.digest
    &&& d.size == e.record.size
    &&& d.artifact_type == e.record.artifact_type
    &&& d.annotations == e.record.annotations
}

/// A referrers listing as the handlers want it.
pub fn referrers_of(list: ReferrerList) -> (r: Referrers)
    ensures
        r.filter_applied == list.filter_applied,
        r.next == list.next,
        r.manifests@.len() == list.entries@.len(),
        forall|i: int|
            0 <= i < r.manifests@.len() ==> is_entry(#[trigger] r.manifests@[i], list.entries@[i]),
{
    let mut entries = list.entries;
    let ghost all = entries@;
    let mut back: Vec<Descriptor> = Vec::new();
    let n = entries.len();
    let mut k: usize = n;
    while k > 0
        invariant
            k <= n,
            n == all.len(),
            entries@ == all.subrange(0, k as int),
            back@.len() == n - k,
            forall|i: int| 0 <= i < back@.len() ==> is_entry(#[trigger] back@[i], all[n - 1 - i]),
        decreases k,
    {
        k = k - 1;
        if let Some(entry) = entries.pop() {
            assert(entries@ =~= all.subrange(0, k as int));
            back.push(
                Descriptor {
                    media_type: entry.record.media_type,
                    digest: entry.digest,
                    size: entry.record.size,
                    artifact_type: entry.record.artifact_type,
                    annotations: entry.record.annotations,
                },
            );
        }
    }
    let mut manifests: Vec<Descriptor> = Vec::new();
    let ghost turned = back@;
    while back.len() > 0
        invariant
            back@.len() + manifests@.len() == n,
            n == all.len(),
            turned.len() == n,
            forall|i: int| 0 <= i < n ==> is_entry(#[trigger] turned[i], all[n - 1 - i]),
            back@ == turned.subrange(0, back@.len() as int),
            forall|i: int| 0 <= i < manifests@.len() ==> is_entry(#[trigger] manifests@[i], all[i]),
        decreases back@.len(),
    {
        if let Some(d) = back.pop() {
            assert(back@ =~= turned.subrange(0, back@.len() as int));
            assert(is_entry(turned[back@.len() as int], all[manifests@.len() as int]));
            manifests.push(d);
        }
    }
    Referrers { manifests, filter_applied: list.filter_applied, next: list.next }
}

/// A failure of the registry reaches the client under the registry's own code, and one of
/// the store as the server's fault. A tag that is none makes the manifest that was pushed
/// under it invalid.
pub proof fn a_failure_keeps_its_meaning(e: RegistryError, told: OpsError)
    requires
        tells(e, told),
    ensures
        !(e is Meta) && !(e is TagInvalid) ==> (ops_failure(told).body matches Some(code)
            && code.text() == e.code_text()),
        e is NameUnknown || e is ManifestUnknown || e is BlobUnknown ==> ops_failure(told).status
            == 404,
        e is ManifestInvalid || e is ManifestBlobUnknown || e is DigestInvalid ==> ops_failure(
            told,
        ).status == 400,
        e is TagInvalid ==> ops_failure(told).status == 400 && ops_failure(told).body == Some(
            ErrorCode::ManifestInvalid,
        ),
        e is Meta ==> ops_failure(told).status == 500,
{
}

/// A blob that the store does not have is unknown, content that is not what it was said
/// to be is the client's fault, and anything else that goes wrong there is the server's.
pub proof fn a_failure_of_the_store_keeps_its_meaning(e: SummError)
    ensures
        e is NotFound ==> ops_failure(store_failure(e)).status == 404 && ops_failure(
            store_failure(e),
        ).body == Some(ErrorCode::BlobUnknown),
        e is InvalidDigest ==> ops_failure(store_failure(e)).status == 400 && ops_failure(
            store_failure(e),
        ).body == Some(ErrorCode::DigestInvalid),
        e is InvalidData || e is Storage ==> ops_failure(store_failure(e)).status == 500,
{
}

} // verus!
