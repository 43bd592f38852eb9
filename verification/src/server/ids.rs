//! Identifiers of upload sessions.
use vstd::prelude::*;
use vstd::utf8::*;

use crate::server::app::is_plain_segment;
use crate::storage::upload::{is_id_char, is_upload_id};

verus! {

/// A digit of lowercase hexadecimal.
pub open spec fn is_lower_hex(c: char) -> bool {
    '0' <= c <= '9' || 'a' <= c <= 'f'
}

/// Thirty-two hexadecimal digits in five groups with hyphens between them.
pub open spec fn is_session_id(s: Seq<char>) -> bool {
    &&& s.len() == 36
    &&& forall|i: int|
        0 <= i < 36 ==> if i == 8 || i == 13 || i == 18 || i == 23 {
            #[trigger] s[i] == '-'
        } else {
            is_lower_hex(s[i])
        }
}

/// `uuid::Uuid::new_v4`, written out by `Uuid`'s `Display`. It is random, so all
/// that is claimed is its shape.
#[verifier::external_body]
fn random_uuid() -> (r: String)
    ensures
        is_session_id(r@),
{
    uuid::Uuid::new_v4().to_string()
}

/// A session identifier names a path segment and a staging file, and nothing else.
pub proof fn session_ids_are_plain(s: Seq<char>)
    requires
        is_session_id(s),
    ensures
        is_plain_segment(s),
        is_upload_id(s),
{
    assert forall|i: int| 0 <= i < s.len() implies '\0' <= (#[trigger] s[i]) <= '\u{7f}' && s[i] != '/'
        && s[i] != '%' && is_id_char(s[i]) by {
        assert(s[i] == '-' || is_lower_hex(s[i]));
    }
    is_ascii_chars_encode_utf8(s);
    reveal_strlit(".");
    reveal_strlit("..");
}

/// Mint the identifier of an upload session.
pub fn new_session_id() -> (r: String)
    ensures
        is_session_id(r@),
        is_plain_segment(r@),
        is_upload_id(r@),
{
    let id = random_uuid();
    proof {
        session_ids_are_plain(id@);
    }
    id
}

/// Mint the name under which a whole blob is staged until it is committed.
pub fn new_staging_id() -> (r: String)
    ensures
        is_upload_id(r@),
        exists|id: Seq<char>| is_session_id(id) && r@ == "single-"@ + id,
{
    let id = random_uuid();
    let r = "single-".to_owned().concat(id.as_str());
    proof {
        reveal_strlit("single-");
        reveal_strlit(".");
        reveal_strlit("..");
        assert forall|i: int| 0 <= i < r@.len() implies '\0' <= (#[trigger] r@[i]) <= '\u{7f}'
            && is_id_char(r@[i]) by {
            if i >= 7 {
                assert(r@[i] == id@[i - 7]);
                assert(id@[i - 7] == '-' || is_lower_hex(id@[i - 7]));
            }
        }
        is_ascii_chars_encode_utf8(r@);
    }
    r
}

} // verus!
