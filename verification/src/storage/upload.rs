//! Staged uploads.
//!
//! An upload is a staging file plus a running hasher. It is identified by an
//! opaque id the *caller* mints. Session bookkeeping is not here: what this owns
//! is the offset and the hash, and it hands the hash state back for the caller to
//! store.
use vstd::prelude::*;
use vstd::utf8::*;

use crate::digest::Digest;
use crate::error::{Result, SummError};
use crate::storage::algorithm::DigestAlgorithm;
use crate::storage::hasher::{finish, is_digest_of, is_state, state_len, state_of, step, Hasher};
use crate::text::{chars_of, debug_quoted, debug_text, decimal, decimal_text, str_eq};

verus! {

/// An opaque upload identifier, validated so it can safely be a filename.
///
/// Restricting it to an unreserved subset of URL-safe characters makes traversal
/// impossible by construction rather than by sanitising - and keeps the value
/// usable verbatim in the `Location` header.
#[derive(Debug, Clone, PartialEq, Eq, Hash, PartialOrd, Ord)]
pub struct UploadId(String);

/// A character that an upload id may hold.
pub open spec fn is_id_char(c: char) -> bool {
    'a' <= c <= 'z' || 'A' <= c <= 'Z' || '0' <= c <= '9' || c == '-' || c == '_' || c == '.' || c
        == '~'
}

/// A text that may be an upload id.
pub open spec fn is_upload_id(s: Seq<char>) -> bool {
    &&& 0 < s.len() <= 128
    &&& s != "."@
    &&& s != ".."@
    &&& forall|i: int| 0 <= i < s.len() ==> is_id_char(#[trigger] s[i])
}

/// An upload id is a single path component: it holds no slash, and is neither of
/// the two names that stand for a directory.
pub proof fn upload_ids_cannot_leave_the_uploads_directory(s: Seq<char>)
    requires
        is_upload_id(s),
    ensures
        !s.contains('/'),
        !s.contains('\0'),
        s != "."@,
        s != ".."@,
        s.len() > 0,
{
}

impl UploadId {
    /// The id itself.
    pub closed spec fn text(self) -> Seq<char> {
        self.0@
    }

    pub fn new(id: &str) -> (r: Result<Self>)
        ensures
            match r {
                Ok(u) => is_upload_id(id@) && u.text() == id@,
                Err(SummError::InvalidData(m)) => !is_upload_id(id@) && m@
                    == "malformed upload id "@ + debug_text(id@),
                Err(_) => false,
            },
    {
        let chars = chars_of(id);
        let mut ok: bool = chars.len() > 0 && id.as_bytes().len() <= 128 && !str_eq(id, ".")
            && !str_eq(id, "..");
        let mut i: usize = 0;
        while i < chars.len()
            invariant
                i <= chars@.len(),
                chars@ == id@,
                ok ==> forall|k: int| 0 <= k < i ==> is_id_char(#[trigger] id@[k]),
                ok ==> 0 < chars@.len() && encode_utf8(id@).len() <= 128 && id@ != "."@ && id@
                    != ".."@,
                !ok ==> !is_upload_id(id@) || encode_utf8(id@).len() > 128,
            decreases chars@.len() - i,
        {
            let c = chars[i];
            if !(('a' <= c && c <= 'z') || ('A' <= c && c <= 'Z') || ('0' <= c && c <= '9') || c
                == '-' || c == '_' || c == '.' || c == '~') {
                assert(!is_id_char(id@[i as int]));
                ok = false;
            }
            i += 1;
        }
        proof {
            if forall|k: int| 0 <= k < id@.len() ==> is_id_char(#[trigger] id@[k]) {
                assert forall|k: int| 0 <= k < id@.len() implies '\0' <= #[trigger] id@[k]
                    <= '\u{7f}' by {
                    assert(is_id_char(id@[k]));
                }
                assert(is_ascii_chars(id@));
                is_ascii_chars_encode_utf8(id@);
            }
        }
        if ok {
            Ok(UploadId(id.to_owned()))
        } else {
            Err(
                SummError::InvalidData(
                    "malformed upload id ".to_owned().concat(debug_quoted(id).as_str()),
                ),
            )
        }
    }

    pub fn as_str(&self) -> (r: &str)
        ensures
            r@ == self.text(),
    {
        self.0.as_str()
    }
}

/// What to do with a chunk.
#[derive(Debug, Clone, Copy, PartialEq, Eq, Structural)]
pub enum AppendMove {
    /// An empty chunk in its place changes nothing.
    Nothing,
    /// Write the chunk at this offset of the staging file.
    Write { at: u64 },
}

/// What a staging file needs before an upload goes on in it.
#[derive(Debug, Clone, Copy, PartialEq, Eq, Structural)]
pub enum ResumeMove {
    /// It ends where the session says.
    AsIs,
    /// It holds bytes that the session never recorded: cut it back.
    Truncate { to: u64 },
}

/// An in-progress upload: append-only, hashed on the way in.
pub struct Upload {
    id: UploadId,
    algorithm: DigestAlgorithm,
    offset: u64,
    hasher: Hasher,
}

/// The words for a chunk that does not start where the upload stands.
pub open spec fn out_of_order(id: Seq<char>, at: u64, offset: u64) -> Seq<char> {
    "out-of-order chunk: upload "@ + id + " is at offset "@ + decimal(at as nat)
        + ", chunk starts at "@ + decimal(offset as nat)
}

impl Upload {
    pub closed spec fn name(self) -> Seq<char> {
        self.id.text()
    }

    pub closed spec fn kind(self) -> DigestAlgorithm {
        self.algorithm
    }

    pub closed spec fn position(self) -> u64 {
        self.offset
    }

    /// The hasher's state.
    pub closed spec fn state(self) -> Seq<u8> {
        self.hasher.state()
    }

    /// How many more bytes can be hashed.
    pub closed spec fn space(self) -> Option<u128> {
        self.hasher.space()
    }

    pub closed spec fn valid(self) -> bool {
        self.hasher.valid() && self.hasher.algorithm() == self.algorithm
    }

    /// The upload has hashed `content` and stands at its end.
    pub open spec fn holds(self, content: Seq<u8>) -> bool {
        self.position() == content.len() && self.state() == state_of(self.kind(), content)
    }

    /// A new upload under a caller-supplied id.
    pub fn create(id: UploadId, algorithm: DigestAlgorithm) -> (r: Self)
        ensures
            r.valid(),
            r.name() == id.text(),
            r.kind() == algorithm,
            r.holds(Seq::empty()),
            r.space() is Some,
    {
        Upload { id, algorithm, offset: 0, hasher: Hasher::new(algorithm) }
    }

    /// Reopen an upload from its stored session.
    ///
    /// `offset` and `hasher_state` are the pair stored together; they must come
    /// from the same batch.
    pub fn resume(
        id: UploadId,
        algorithm: DigestAlgorithm,
        offset: u64,
        hasher_state: &[u8],
    ) -> (r: Result<Self>)
        ensures
            match r {
                Ok(u) => {
                    &&& is_state(algorithm, hasher_state@)
                    &&& u.valid()
                    &&& u.name() == id.text()
                    &&& u.kind() == algorithm
                    &&& u.position() == offset
                    &&& u.state() == hasher_state@
                },
                Err(SummError::Storage(m)) => !is_state(algorithm, hasher_state@) && m@
                    == if hasher_state@.len() != state_len(algorithm) {
                    "corrupt "@ + algorithm.name() + " hasher state: expected "@ + decimal(
                        state_len(algorithm),
                    ) + " bytes, got "@ + decimal(hasher_state@.len())
                } else {
                    "corrupt "@ + algorithm.name() + " hasher state: rejected by sha2"@
                },
                Err(_) => false,
            },
    {
        match Hasher::restore(algorithm, hasher_state) {
            Ok(hasher) => Ok(Upload { id, algorithm, offset, hasher }),
            Err(e) => Err(e),
        }
    }

    /// What a staging file of some length needs before this upload goes on in it.
    ///
    /// The session is stored *after* the bytes are written, so the file can
    /// legitimately be longer than the offset. It can never legitimately be
    /// shorter, and a short file is reported: resuming on top of a hole would
    /// produce a digest mismatch that looks like the client's fault.
    pub fn check_staging(&self, path: &str, len: u64) -> (r: Result<ResumeMove>)
        ensures
            match r {
                Ok(m) => len >= self.position() && m == if len > self.position() {
                    ResumeMove::Truncate { to: self.position() }
                } else {
                    ResumeMove::AsIs
                },
                Err(SummError::Storage(m)) => len < self.position() && m@ == "upload "@ + path@
                    + " is "@ + decimal(len as nat) + " bytes but its session records offset "@
                    + decimal(self.position() as nat),
                Err(_) => false,
            },
    {
        if len < self.offset {
            let mut m = "upload ".to_owned();
            m.append(path);
            m.append(" is ");
            m.append(decimal_text(len).as_str());
            m.append(" bytes but its session records offset ");
            m.append(decimal_text(self.offset).as_str());
            return Err(SummError::Storage(m));
        }
        if len > self.offset {
            Ok(ResumeMove::Truncate { to: self.offset })
        } else {
            Ok(ResumeMove::AsIs)
        }
    }

    pub fn id(&self) -> (r: &UploadId)
        ensures
            r.text() == self.name(),
    {
        &self.id
    }

    pub fn algorithm(&self) -> (r: DigestAlgorithm)
        ensures
            r == self.kind(),
    {
        self.algorithm
    }

    /// Bytes committed so far. The next chunk must start exactly here.
    pub fn offset(&self) -> (r: u64)
        ensures
            r == self.position(),
    {
        self.offset
    }

    /// The hasher state at [`Upload::offset`]. Store it in the same batch that
    /// stores the offset: the two together are the resume point.
    pub fn hasher_state(&self) -> (r: Vec<u8>)
        requires
            self.valid(),
        ensures
            r@ == self.state(),
            is_state(self.kind(), r@),
    {
        self.hasher.serialize_state()
    }

    /// Whether a chunk can go in: what to write, or why not.
    ///
    /// `offset` is the client's claim about where the chunk starts. Anything but
    /// [`Upload::offset`] is refused, *before* the file is touched, because a
    /// rejected chunk must leave the session as it was.
    pub fn plan_append(&self, offset: u64, len: usize) -> (r: Result<AppendMove>)
        ensures
            match r {
                Ok(m) => offset == self.position() && m == if len == 0 {
                    AppendMove::Nothing
                } else {
                    AppendMove::Write { at: self.position() }
                },
                Err(SummError::InvalidData(m)) => offset != self.position() && m@ == out_of_order(
                    self.name(),
                    self.position(),
                    offset,
                ),
                Err(_) => false,
            },
    {
        if offset != self.offset {
            let mut m = "out-of-order chunk: upload ".to_owned();
            m.append(self.id.as_str());
            m.append(" is at offset ");
            m.append(decimal_text(self.offset).as_str());
            m.append(", chunk starts at ");
            m.append(decimal_text(offset).as_str());
            return Err(SummError::InvalidData(m));
        }
        if len == 0 {
            Ok(AppendMove::Nothing)
        } else {
            Ok(AppendMove::Write { at: self.offset })
        }
    }

    /// Whether the offset and the hash can take in `len` more bytes.
    pub fn has_room(&self, len: usize) -> (r: bool)
        ensures
            r == (self.position() + len <= u64::MAX && (self.space() matches Some(n) && len <= n)),
    {
        len as u64 <= u64::MAX - self.offset && self.hasher.has_room(len)
    }

    /// A chunk is on disk: hash it and move on. Bytes first, hash second, or the
    /// digest would describe bytes that are not there.
    pub fn appended(&mut self, chunk: &[u8]) -> (r: u64)
        requires
            old(self).valid(),
            old(self).position() + chunk@.len() <= u64::MAX,
            old(self).space() matches Some(n) && chunk@.len() <= n,
        ensures
            final(self).valid(),
            final(self).name() == old(self).name(),
            final(self).kind() == old(self).kind(),
            final(self).position() == old(self).position() + chunk@.len(),
            r == final(self).position(),
            final(self).state() == step(old(self).kind(), old(self).state(), chunk@),
            final(self).space() == Some((old(self).space()->0 - chunk@.len()) as u128),
            forall|content: Seq<u8>| #[trigger]
                old(self).holds(content) ==> final(self).holds(content + chunk@),
    {
        let ghost before = *self;
        self.hasher.update(chunk);
        self.offset = self.offset + chunk.len() as u64;
        proof {
            assert forall|content: Seq<u8>| #[trigger] before.holds(content) implies self.holds(
                content + chunk@,
            ) by {
                assert(before.state() == state_of(before.kind(), content));
            }
        }
        self.offset
    }

    /// Finish the hash: the digest of everything hashed, and how many bytes.
    pub fn seal(self) -> (r: (Digest, u64))
        requires
            self.valid(),
            self.space() is Some,
        ensures
            r.1 == self.position(),
            (r.0 is Sha256) == (self.kind() == DigestAlgorithm::Sha256),
            r.0.raw_bytes() == finish(self.kind(), self.state()),
            forall|content: Seq<u8>| #[trigger] self.holds(content) ==> is_digest_of(r.0, content),
    {
        let size: u64 = self.offset;
        let ghost before = self;
        let digest = self.hasher.finalize();
        proof {
            assert forall|content: Seq<u8>| #[trigger] before.holds(content) implies is_digest_of(
                digest,
                content,
            ) by {
                assert(before.state() == state_of(before.kind(), content));
            }
        }
        (digest, size)
    }
}

/// An upload resumed from what it handed back goes on as if it had never stopped:
/// whatever it hashed before, it still holds.
pub proof fn a_resumed_upload_holds_what_it_held(before: Upload, after: Upload, content: Seq<u8>)
    requires
        before.holds(content),
        after.kind() == before.kind(),
        after.position() == before.position(),
        after.state() == before.state(),
    ensures
        after.holds(content),
{
}

/// Any text of letters, digits, hyphens, underscores, dots and tildes, no longer than an
/// identifier may be, is one, but for the two names that stand for directories. Nothing
/// else is.
pub proof fn upload_ids_are_plain_texts(s: Seq<char>, i: int)
    ensures
        s.len() == 0 || s.len() > 128 ==> !is_upload_id(s),
        0 <= i < s.len() && !('a' <= s[i] <= 'z' || 'A' <= s[i] <= 'Z' || '0' <= s[i] <= '9' || s[i]
            == '-' || s[i] == '_' || s[i] == '.' || s[i] == '~') ==> !is_upload_id(s),
        0 < s.len() <= 128 && s != "."@ && s != ".."@ && (forall|k: int|
            0 <= k < s.len() ==> 'a' <= (#[trigger] s[k]) <= 'z' || 'A' <= s[k] <= 'Z' || '0' <= s[k]
                <= '9' || s[k] == '-' || s[k] == '_' || s[k] == '.' || s[k] == '~') ==> is_upload_id(
            s,
        ),
{
}

} // verus!
