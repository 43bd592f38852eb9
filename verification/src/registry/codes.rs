//! The error codes that clients are answered with, as far as the registry
//! itself raises them.
use vstd::prelude::*;

verus! {

pub const BLOB_UNKNOWN: &'static str = "BLOB_UNKNOWN";

pub const DIGEST_INVALID: &'static str = "DIGEST_INVALID";

pub const MANIFEST_BLOB_UNKNOWN: &'static str = "MANIFEST_BLOB_UNKNOWN";

pub const MANIFEST_INVALID: &'static str = "MANIFEST_INVALID";

pub const MANIFEST_UNKNOWN: &'static str = "MANIFEST_UNKNOWN";

pub const NAME_INVALID: &'static str = "NAME_INVALID";

pub const NAME_UNKNOWN: &'static str = "NAME_UNKNOWN";

/// Reserved for a genuine internal fault, which is a 500 and not a client's
/// problem.
pub const UNKNOWN: &'static str = "UNKNOWN";

} // verus!
