//! Errors as a client sees them: a code, a status, words, and the headers that
//! some statuses oblige.
use vstd::prelude::*;

use crate::registry::error::RegistryError;

verus! {

/// The codes that an error body may carry.
#[derive(Debug, Clone, Copy, PartialEq, Eq, Structural)]
pub enum ErrorCode {
    BlobUnknown,
    BlobUploadInvalid,
    BlobUploadUnknown,
    DigestInvalid,
    ManifestBlobUnknown,
    ManifestInvalid,
    ManifestUnknown,
    NameInvalid,
    NameUnknown,
    SizeInvalid,
    Unauthorized,
    Denied,
    Unsupported,
    /// Never sent by this registry. A popular client retries `429` at once, five
    /// times, so answering with it adds load instead of shedding it.
    TooManyRequests,
    PaginationNumberInvalid,
}

impl ErrorCode {
    /// The code as it is written in an error body.
    pub open spec fn text(self) -> Seq<char> {
        match self {
            ErrorCode::BlobUnknown => "BLOB_UNKNOWN"@,
            ErrorCode::BlobUploadInvalid => "BLOB_UPLOAD_INVALID"@,
            ErrorCode::BlobUploadUnknown => "BLOB_UPLOAD_UNKNOWN"@,
            ErrorCode::DigestInvalid => "DIGEST_INVALID"@,
            ErrorCode::ManifestBlobUnknown => "MANIFEST_BLOB_UNKNOWN"@,
            ErrorCode::ManifestInvalid => "MANIFEST_INVALID"@,
            ErrorCode::ManifestUnknown => "MANIFEST_UNKNOWN"@,
            ErrorCode::NameInvalid => "NAME_INVALID"@,
            ErrorCode::NameUnknown => "NAME_UNKNOWN"@,
            ErrorCode::SizeInvalid => "SIZE_INVALID"@,
            ErrorCode::Unauthorized => "UNAUTHORIZED"@,
            ErrorCode::Denied => "DENIED"@,
            ErrorCode::Unsupported => "UNSUPPORTED"@,
            ErrorCode::TooManyRequests => "TOOMANYREQUESTS"@,
            ErrorCode::PaginationNumberInvalid => "PAGINATION_NUMBER_INVALID"@,
        }
    }

    /// The status that goes with the code.
    pub open spec fn status_of(self) -> u16 {
        match self {
            ErrorCode::BlobUnknown => 404,
            ErrorCode::BlobUploadInvalid => 400,
            ErrorCode::BlobUploadUnknown => 404,
            ErrorCode::DigestInvalid => 400,
            ErrorCode::ManifestBlobUnknown => 400,
            ErrorCode::ManifestInvalid => 400,
            ErrorCode::ManifestUnknown => 404,
            ErrorCode::NameInvalid => 400,
            ErrorCode::NameUnknown => 404,
            ErrorCode::SizeInvalid => 400,
            ErrorCode::Unauthorized => 401,
            ErrorCode::Denied => 403,
            ErrorCode::Unsupported => 405,
            ErrorCode::TooManyRequests => 429,
            ErrorCode::PaginationNumberInvalid => 400,
        }
    }

    /// The words that go with the code when nothing better is known.
    pub open spec fn words(self) -> Seq<char> {
        match self {
            ErrorCode::BlobUnknown => "blob unknown to registry"@,
            ErrorCode::BlobUploadInvalid => "blob upload invalid"@,
            ErrorCode::BlobUploadUnknown => "blob upload unknown to registry"@,
            ErrorCode::DigestInvalid => "provided digest did not match uploaded content"@,
            ErrorCode::ManifestBlobUnknown => "manifest references a manifest or blob unknown to registry"@,
            ErrorCode::ManifestInvalid => "manifest invalid"@,
            ErrorCode::ManifestUnknown => "manifest unknown to registry"@,
            ErrorCode::NameInvalid => "invalid repository name"@,
            ErrorCode::NameUnknown => "repository name not known to registry"@,
            ErrorCode::SizeInvalid => "provided length did not match content length"@,
            ErrorCode::Unauthorized => "authentication required"@,
            ErrorCode::Denied => "requested access to the resource is denied"@,
            ErrorCode::Unsupported => "the operation is unsupported"@,
            ErrorCode::TooManyRequests => "too many requests"@,
            ErrorCode::PaginationNumberInvalid => "invalid number of results requested"@,
        }
    }

    pub fn as_str(self) -> (r: &'static str)
        ensures
            r@ == self.text(),
    {
        match self {
            ErrorCode::BlobUnknown => "BLOB_UNKNOWN",
            ErrorCode::BlobUploadInvalid => "BLOB_UPLOAD_INVALID",
            ErrorCode::BlobUploadUnknown => "BLOB_UPLOAD_UNKNOWN",
            ErrorCode::DigestInvalid => "DIGEST_INVALID",
            ErrorCode::ManifestBlobUnknown => "MANIFEST_BLOB_UNKNOWN",
            ErrorCode::ManifestInvalid => "MANIFEST_INVALID",
            ErrorCode::ManifestUnknown => "MANIFEST_UNKNOWN",
            ErrorCode::NameInvalid => "NAME_INVALID",
            ErrorCode::NameUnknown => "NAME_UNKNOWN",
            ErrorCode::SizeInvalid => "SIZE_INVALID",
            ErrorCode::Unauthorized => "UNAUTHORIZED",
            ErrorCode::Denied => "DENIED",
            ErrorCode::Unsupported => "UNSUPPORTED",
            ErrorCode::TooManyRequests => "TOOMANYREQUESTS",
            ErrorCode::PaginationNumberInvalid => "PAGINATION_NUMBER_INVALID",
        }
    }

    pub fn status(self) -> (r: u16)
        ensures
            r == self.status_of(),
    {
        match self {
            ErrorCode::BlobUnknown => 404,
            ErrorCode::BlobUploadInvalid => 400,
            ErrorCode::BlobUploadUnknown => 404,
            ErrorCode::DigestInvalid => 400,
            ErrorCode::ManifestBlobUnknown => 400,
            ErrorCode::ManifestInvalid => 400,
            ErrorCode::ManifestUnknown => 404,
            ErrorCode::NameInvalid => 400,
            ErrorCode::NameUnknown => 404,
            ErrorCode::SizeInvalid => 400,
            ErrorCode::Unauthorized => 401,
            ErrorCode::Denied => 403,
            ErrorCode::Unsupported => 405,
            ErrorCode::TooManyRequests => 429,
            ErrorCode::PaginationNumberInvalid => 400,
        }
    }

    pub fn message(self) -> (r: &'static str)
        ensures
            r@ == self.words(),
    {
        match self {
            ErrorCode::BlobUnknown => "blob unknown to registry",
            ErrorCode::BlobUploadInvalid => "blob upload invalid",
            ErrorCode::BlobUploadUnknown => "blob upload unknown to registry",
            ErrorCode::DigestInvalid => "provided digest did not match uploaded content",
            ErrorCode::ManifestBlobUnknown => "manifest references a manifest or blob unknown to registry",
            ErrorCode::ManifestInvalid => "manifest invalid",
            ErrorCode::ManifestUnknown => "manifest unknown to registry",
            ErrorCode::NameInvalid => "invalid repository name",
            ErrorCode::NameUnknown => "repository name not known to registry",
            ErrorCode::SizeInvalid => "provided length did not match content length",
            ErrorCode::Unauthorized => "authentication required",
            ErrorCode::Denied => "requested access to the resource is denied",
            ErrorCode::Unsupported => "the operation is unsupported",
            ErrorCode::TooManyRequests => "too many requests",
            ErrorCode::PaginationNumberInvalid => "invalid number of results requested",
        }
    }
}

/// An error code is uppercase letters and underscores only.
pub proof fn codes_are_uppercase_and_underscores(code: ErrorCode, i: int)
    requires
        0 <= i < code.text().len(),
    ensures
        'A' <= code.text()[i] <= 'Z' || code.text()[i] == '_',
{
    reveal_strlit("BLOB_UNKNOWN");
    reveal_strlit("BLOB_UPLOAD_INVALID");
    reveal_strlit("BLOB_UPLOAD_UNKNOWN");
    reveal_strlit("DIGEST_INVALID");
    reveal_strlit("MANIFEST_BLOB_UNKNOWN");
    reveal_strlit("MANIFEST_INVALID");
    reveal_strlit("MANIFEST_UNKNOWN");
    reveal_strlit("NAME_INVALID");
    reveal_strlit("NAME_UNKNOWN");
    reveal_strlit("SIZE_INVALID");
    reveal_strlit("UNAUTHORIZED");
    reveal_strlit("DENIED");
    reveal_strlit("UNSUPPORTED");
    reveal_strlit("TOOMANYREQUESTS");
    reveal_strlit("PAGINATION_NUMBER_INVALID");
}

/// A failed request, ready to become a response.
#[derive(Debug)]
pub struct ApiError {
    /// What the error body names; `None` for a response without a body.
    pub body: Option<ErrorCode>,
    pub status: u16,
    pub message: String,
    pub detail: Option<String>,
    pub headers: Vec<(String, String)>,
}

/// What a failed request is answered with.
pub struct Failure {
    pub body: Option<ErrorCode>,
    pub status: u16,
    pub message: Seq<char>,
    pub detail: Option<Seq<char>>,
    pub headers: Seq<(Seq<char>, Seq<char>)>,
}

impl DeepView for ApiError {
    type V = Failure;

    open spec fn deep_view(&self) -> Failure {
        Failure {
            body: self.body,
            status: self.status,
            message: self.message@,
            detail: self.detail.deep_view(),
            headers: self.headers.deep_view(),
        }
    }
}

/// The plain failure that a code stands for.
pub open spec fn failure(code: ErrorCode) -> Failure {
    Failure {
        body: Some(code),
        status: code.status_of(),
        message: code.words(),
        detail: None,
        headers: Seq::empty(),
    }
}

/// The failure of a code, with a detail.
pub open spec fn failure_about(code: ErrorCode, detail: Seq<char>) -> Failure {
    Failure { detail: Some(detail), ..failure(code) }
}

/// A failure that is only a status.
pub open spec fn bare_failure(status: u16) -> Failure {
    Failure {
        body: None,
        status,
        message: Seq::empty(),
        detail: None,
        headers: Seq::empty(),
    }
}

impl ApiError {
    pub fn new(code: ErrorCode) -> (r: ApiError)
        ensures
            r.deep_view() == failure(code),
    {
        let r = ApiError {
            body: Some(code),
            status: code.status(),
            message: code.message().to_owned(),
            detail: None,
            headers: Vec::new(),
        };
        assert(r.headers.deep_view() =~= Seq::empty());
        r
    }

    /// A status with no body: for the conditions that no code describes.
    pub fn status_only(status: u16) -> (r: ApiError)
        ensures
            r.deep_view() == bare_failure(status),
    {
        let r = ApiError {
            body: None,
            status,
            message: String::new(),
            detail: None,
            headers: Vec::new(),
        };
        assert(r.headers.deep_view() =~= Seq::empty());
        assert(r.message@ =~= Seq::empty());
        r
    }

    /// Something failed on this side. The reason is for the log: a client is told
    /// only that it was not its fault.
    pub fn internal(reason: String) -> (r: ApiError)
        ensures
            r.deep_view() == (Failure { message: reason@, ..bare_failure(500) }),
    {
        ApiError { message: reason, ..ApiError::status_only(500) }
    }

    pub fn with_status(self, status: u16) -> (r: ApiError)
        ensures
            r.deep_view() == (Failure { status, ..self.deep_view() }),
    {
        ApiError { status, ..self }
    }

    pub fn with_message(self, message: &str) -> (r: ApiError)
        ensures
            r.deep_view() == (Failure { message: message@, ..self.deep_view() }),
    {
        ApiError { message: message.to_owned(), ..self }
    }

    pub fn with_detail(self, detail: &str) -> (r: ApiError)
        ensures
            r.deep_view() == (Failure { detail: Some(detail@), ..self.deep_view() }),
    {
        ApiError { detail: Some(detail.to_owned()), ..self }
    }

    pub fn with_header(self, name: &str, value: String) -> (r: ApiError)
        ensures
            r.deep_view() == (Failure {
                headers: self.deep_view().headers.push((name@, value@)),
                ..self.deep_view()
            }),
    {
        let mut headers = self.headers;
        headers.push((name.to_owned(), value));
        assert(headers.deep_view() =~= self.deep_view().headers.push((name@, value@)));
        ApiError { headers, ..self }
    }

    /// The code that the error body names. A failure without a body counts as an
    /// operation that is not supported.
    pub fn code(&self) -> (r: ErrorCode)
        ensures
            r == match self.body {
                Some(code) => code,
                None => ErrorCode::Unsupported,
            },
    {
        match self.body {
            Some(code) => code,
            None => ErrorCode::Unsupported,
        }
    }

    pub fn status(&self) -> (r: u16)
        ensures
            r == self.status,
    {
        self.status
    }
}

/// A code that says that something is not known goes with `404`, but for a manifest that
/// names what is not there, which is the client's mistake; a code that says that something
/// is wrong goes with `400`.
pub proof fn a_code_goes_with_its_status(code: ErrorCode)
    ensures
        code is BlobUnknown || code is BlobUploadUnknown || code is ManifestUnknown
            || code is NameUnknown <==> code.status_of() == 404,
        code is BlobUploadInvalid || code is DigestInvalid || code is ManifestBlobUnknown
            || code is ManifestInvalid || code is NameInvalid || code is SizeInvalid
            || code is PaginationNumberInvalid <==> code.status_of() == 400,
        code is Unauthorized <==> code.status_of() == 401,
        code is Denied <==> code.status_of() == 403,
        code is Unsupported <==> code.status_of() == 405,
        code is TooManyRequests <==> code.status_of() == 429,
        failure(code).status == code.status_of(),
        failure(code).body == Some(code),
{
}

/// The registry and the protocol use one code for one condition.
pub proof fn both_layers_use_one_code(e: RegistryError)
    ensures
        e is NameUnknown ==> e.code_text() == ErrorCode::NameUnknown.text(),
        e is TagInvalid ==> e.code_text() == ErrorCode::NameInvalid.text(),
        e is ManifestInvalid ==> e.code_text() == ErrorCode::ManifestInvalid.text(),
        e is ManifestUnknown ==> e.code_text() == ErrorCode::ManifestUnknown.text(),
        e is ManifestBlobUnknown ==> e.code_text() == ErrorCode::ManifestBlobUnknown.text(),
        e is DigestInvalid ==> e.code_text() == ErrorCode::DigestInvalid.text(),
        e is BlobUnknown ==> e.code_text() == ErrorCode::BlobUnknown.text(),
{
}

} // verus!
