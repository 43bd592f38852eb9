//! Which hash an upload is being accumulated under.
//!
//! A [`Digest`] names an algorithm only once a hash *exists*. An upload has to
//! choose one before a single byte has arrived.
use vstd::prelude::*;

use crate::digest::Digest;
use crate::error::{Result, SummError};
use crate::text::{debug_quoted, debug_text, str_eq};

verus! {

#[derive(Debug, Clone, Copy, PartialEq, Eq, Hash, Structural)]
pub enum DigestAlgorithm {
    Sha256,
    Sha512,
}

impl DigestAlgorithm {
    /// The algorithm's name.
    pub open spec fn name(self) -> Seq<char> {
        match self {
            DigestAlgorithm::Sha256 => "sha256"@,
            DigestAlgorithm::Sha512 => "sha512"@,
        }
    }

    /// The name, as it appears in a digest and in a stored session.
    pub fn as_str(self) -> (r: &'static str)
        ensures
            r@ == self.name(),
    {
        match self {
            DigestAlgorithm::Sha256 => "sha256",
            DigestAlgorithm::Sha512 => "sha512",
        }
    }

    /// Parse a name. An unknown algorithm is a client error to be refused, not
    /// something to fall back from.
    pub fn from_name(name: &str) -> (r: Result<Self>)
        ensures
            match r {
                Ok(a) => name@ == a.name(),
                Err(SummError::InvalidDigest(m)) => name@ != "sha256"@ && name@ != "sha512"@ && m@
                    == "unsupported digest algorithm "@ + debug_text(name@),
                Err(_) => false,
            },
    {
        if str_eq(name, "sha256") {
            Ok(DigestAlgorithm::Sha256)
        } else if str_eq(name, "sha512") {
            Ok(DigestAlgorithm::Sha512)
        } else {
            Err(
                SummError::InvalidDigest(
                    "unsupported digest algorithm ".to_owned().concat(debug_quoted(name).as_str()),
                ),
            )
        }
    }

    /// The algorithm an existing digest was produced under, so a caller holding
    /// only a `?digest=` value can open the matching hasher.
    pub fn of(digest: &Digest) -> (r: Self)
        ensures
            r == if digest is Sha256 {
                DigestAlgorithm::Sha256
            } else {
                DigestAlgorithm::Sha512
            },
            r.name() == digest.algorithm_name(),
    {
        match digest {
            Digest::Sha256(_) => DigestAlgorithm::Sha256,
            Digest::Sha512(_) => DigestAlgorithm::Sha512,
        }
    }
}

/// The two names differ, so a name stands for one algorithm.
pub proof fn algorithm_names_are_distinct(a: DigestAlgorithm, b: DigestAlgorithm)
    requires
        a.name() == b.name(),
    ensures
        a == b,
{
    reveal_strlit("sha256");
    reveal_strlit("sha512");
    assert("sha256"@[3] != "sha512"@[3]);
}

} // verus!
