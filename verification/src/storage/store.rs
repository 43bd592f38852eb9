//! The store itself: where a blob goes, and when an upload becomes one.
use vstd::prelude::*;

use crate::bytes::bytes_eq;
use crate::digest::{digest_extensional, Digest};
use crate::error::{Result, SummError};
use crate::storage::algorithm::DigestAlgorithm;
use crate::storage::hasher::{digests_of_content_agree, finish, is_digest_of};
use crate::storage::paths::{
    blob_dir, blob_file, blob_path, join, joined, upload_file, upload_path, BLOBS_DIR, UPLOADS_DIR,
};
use crate::storage::upload::{Upload, UploadId};

verus! {

/// How much of a blob is read at a time.
pub const DEFAULT_READ_CHUNK_SIZE: usize = 1_048_576;

/// Below this the fixed cost of a read dominates, so a smaller configured value
/// is raised to it rather than honoured.
pub const MIN_READ_CHUNK_SIZE: usize = 262_144;

/// A content-addressed blob store on a local filesystem.
#[derive(Debug, Clone, PartialEq, Eq)]
pub struct BlobStore {
    root: String,
    read_chunk_size: usize,
}

impl BlobStore {
    pub closed spec fn place(self) -> Seq<char> {
        self.root@
    }

    pub closed spec fn chunk(self) -> usize {
        self.read_chunk_size
    }

    /// A store is read in chunks of a sensible size.
    pub open spec fn valid(self) -> bool {
        self.chunk() >= MIN_READ_CHUNK_SIZE
    }

    /// A store rooted at `root`.
    ///
    /// The uploads directory has to share a filesystem with the blobs directory,
    /// because committing is a rename. Keeping both under one root is what
    /// guarantees that.
    pub fn new(root: &str) -> (r: Self)
        ensures
            r.valid(),
            r.place() == root@,
            r.chunk() == DEFAULT_READ_CHUNK_SIZE,
    {
        BlobStore { root: root.to_owned(), read_chunk_size: DEFAULT_READ_CHUNK_SIZE }
    }

    /// Override the read chunk size. Values below [`MIN_READ_CHUNK_SIZE`] are
    /// raised to it.
    pub fn with_read_chunk_size(self, size: usize) -> (r: Self)
        ensures
            r.valid(),
            r.place() == self.place(),
            r.chunk() == if size < MIN_READ_CHUNK_SIZE {
                MIN_READ_CHUNK_SIZE
            } else {
                size
            },
    {
        BlobStore {
            root: self.root,
            read_chunk_size: if size < MIN_READ_CHUNK_SIZE {
                MIN_READ_CHUNK_SIZE
            } else {
                size
            },
        }
    }

    pub fn root(&self) -> (r: &str)
        ensures
            r@ == self.place(),
    {
        self.root.as_str()
    }

    pub fn read_chunk_size(&self) -> (r: usize)
        ensures
            r == self.chunk(),
    {
        self.read_chunk_size
    }

    /// The two directories a store needs: for blobs and for uploads.
    pub fn directories(&self) -> (r: (String, String))
        ensures
            r.0@ == joined(self.place(), "blobs"@),
            r.1@ == joined(self.place(), "uploads"@),
    {
        (join(self.root.as_str(), BLOBS_DIR), join(self.root.as_str(), UPLOADS_DIR))
    }

    /// A blob's directory and file.
    pub fn blob_path(&self, digest: &Digest) -> (r: (String, String))
        ensures
            r.0@ == blob_dir(self.place(), *digest),
            r.1@ == blob_file(self.place(), *digest),
    {
        blob_path(self.root.as_str(), digest)
    }

    /// An upload's staging file.
    pub fn upload_path(&self, id: &UploadId) -> (r: String)
        ensures
            r@ == upload_file(self.place(), id.text()),
    {
        upload_path(self.root.as_str(), id.as_str())
    }

    /// Whether an upload may be committed as `expected`, and its size.
    ///
    /// The digest is the one accumulated while the bytes were written; the blob is
    /// never read again to verify it. A mismatch creates no blob, and leaves the
    /// staging file in place.
    pub fn check_commit(&self, upload: Upload, expected: &Digest) -> (r: Result<u64>)
        requires
            upload.valid(),
            upload.space() is Some,
        ensures
            forall|content: Seq<u8>| #[trigger]
                upload.holds(content) ==> (r is Ok <==> (expected is Sha256) == (upload.kind()
                    == DigestAlgorithm::Sha256) && is_digest_of(
                    *expected,
                    content,
                )),
            match r {
                Ok(size) => size == upload.position() && is_result(upload, *expected),
                Err(SummError::InvalidDigest(m)) => exists|actual: Digest|
                    actual != *expected && is_result(upload, actual) && #[trigger] mismatch_text(
                        *expected,
                        actual,
                    ) == m@,
                Err(_) => false,
            },
    {
        let ghost was = upload;
        let (actual, size) = upload.seal();
        let same = same_digest(&actual, expected);
        proof {
            assert forall|content: Seq<u8>| #[trigger] was.holds(content) implies (same <==> (
            expected is Sha256) == (was.kind()
                == DigestAlgorithm::Sha256) && is_digest_of(
                *expected,
                content,
            )) by {
                if (expected is Sha256) == (actual is Sha256) && is_digest_of(*expected, content) {
                    digests_of_content_agree(*expected, actual, content);
                }
            }
        }
        if !same {
            let mut m = "digest mismatch: client declared ".to_owned();
            m.append(expected.to_text().as_str());
            m.append(", content hashes to ");
            m.append(actual.to_text().as_str());
            assert(m@ == mismatch_text(*expected, actual));
            return Err(SummError::InvalidDigest(m));
        }
        Ok(size)
    }
}

/// The digest that an upload's bytes hash to.
pub open spec fn is_result(upload: Upload, d: Digest) -> bool {
    (d is Sha256) == (upload.kind() == DigestAlgorithm::Sha256) && d.raw_bytes() == finish(
        upload.kind(),
        upload.state(),
    )
}

/// The words for content that is not what it was declared to be.
pub open spec fn mismatch_text(expected: Digest, actual: Digest) -> Seq<char> {
    "digest mismatch: client declared "@ + expected.text() + ", content hashes to "@ + actual.text()
}

/// Whether two digests are the same.
pub fn same_digest(a: &Digest, b: &Digest) -> (r: bool)
    ensures
        r == (*a == *b),
{
    let r = a.algo_byte() == b.algo_byte() && bytes_eq(a.raw(), b.raw());
    proof {
        if r {
            digest_extensional(*a, *b);
        }
    }
    r
}

} // verus!
