//! `<reference>` - the tag-or-digest that addresses a manifest.
use vstd::prelude::*;

use crate::digest::{digest_outcome, parsed_digest, Digest};
use crate::registry::error::{Fault, RegistryError, Result};
use crate::text::{chars_of, find_char, lemma_first_index_bounds};

verus! {

/// Longest legal tag, from the grammar `[a-zA-Z0-9_][a-zA-Z0-9._-]{0,127}`.
pub const MAX_TAG_LEN: usize = 128;

/// A manifest reference: either a tag or a digest, and never anything else.
#[derive(Debug, Clone, PartialEq, Eq)]
pub enum Reference {
    Tag(String),
    Digest(Digest),
}

/// A letter or digit of ASCII.
pub open spec fn is_alphanumeric(c: char) -> bool {
    'a' <= c <= 'z' || 'A' <= c <= 'Z' || '0' <= c <= '9'
}

/// `c` may begin a tag.
pub open spec fn starts_tag(c: char) -> bool {
    is_alphanumeric(c) || c == '_'
}

/// `c` may stand behind a tag's first character.
pub open spec fn continues_tag(c: char) -> bool {
    is_alphanumeric(c) || c == '.' || c == '_' || c == '-'
}

/// What is wrong with a tag, if anything.
pub open spec fn tag_objection(tag: Seq<char>) -> Option<Seq<char>> {
    if tag.len() == 0 {
        Some("empty"@)
    } else if !starts_tag(tag[0]) {
        Some("first character must be alphanumeric or '_'"@)
    } else if tag.len() > MAX_TAG_LEN {
        Some("longer than 128 characters"@)
    } else if exists|i: int| 1 <= i < tag.len() && !continues_tag(#[trigger] tag[i]) {
        Some("characters must be [a-zA-Z0-9._-]"@)
    } else {
        None
    }
}

/// What a reference reads as.
pub open spec fn reference_outcome(s: Seq<char>) -> std::result::Result<
    std::result::Result<Digest, Seq<char>>,
    Fault,
> {
    if s.contains(':') {
        match digest_outcome(s) {
            Ok(_) => Ok(Ok(parsed_digest(s)->0)),
            Err(words) => Err(Fault::DigestInvalid("invalid digest: "@ + words)),
        }
    } else {
        match tag_objection(s) {
            Some(reason) => Err(Fault::TagInvalid(s, reason)),
            None => Ok(Err(s)),
        }
    }
}

/// A legal tag holds no NUL, no colon and no slash.
pub proof fn tags_hold_no_terminator(tag: Seq<char>, i: int)
    requires
        tag_objection(tag) is None,
        0 <= i < tag.len(),
    ensures
        tag[i] != '\0',
        tag[i] != ':',
        tag[i] != '/',
{
    if i > 0 {
        assert(continues_tag(tag[i]));
    }
}

fn alphanumeric(c: char) -> (r: bool)
    ensures
        r == is_alphanumeric(c),
{
    ('a' <= c && c <= 'z') || ('A' <= c && c <= 'Z') || ('0' <= c && c <= '9')
}

impl Reference {
    /// The tag or digest a reference is.
    pub open spec fn said(self) -> std::result::Result<Digest, Seq<char>> {
        match self {
            Reference::Tag(t) => Err(t@),
            Reference::Digest(d) => Ok(d),
        }
    }

    pub fn as_tag(&self) -> (r: Option<&str>)
        ensures
            match self {
                Reference::Tag(t) => r matches Some(s) && s@ == t@,
                Reference::Digest(_) => r is None,
            },
    {
        match self {
            Reference::Tag(t) => Some(t.as_str()),
            Reference::Digest(_) => None,
        }
    }

    pub fn as_digest(&self) -> (r: Option<&Digest>)
        ensures
            match self {
                Reference::Digest(d) => r == Some(d),
                Reference::Tag(_) => r is None,
            },
    {
        match self {
            Reference::Digest(d) => Some(d),
            Reference::Tag(_) => None,
        }
    }

    /// The reference as a client writes it.
    pub fn to_text(&self) -> (r: String)
        ensures
            r@ == match *self {
                Reference::Tag(t) => t@,
                Reference::Digest(d) => d.text(),
            },
    {
        match self {
            Reference::Tag(t) => t.as_str().to_owned(),
            Reference::Digest(d) => d.to_text(),
        }
    }

    /// Read a reference.
    ///
    /// One containing `:` is being *offered* as a digest, so a parse failure is
    /// `DIGEST_INVALID` and not a tag. Falling back to a tag would turn a 400
    /// into a misleading 404, and `:` is not in the tag grammar anyway.
    pub fn parse(s: &str) -> (r: Result<Reference>)
        ensures
            match r {
                Ok(reference) => reference_outcome(s@) == Ok::<_, Fault>(reference.said()),
                Err(e) => reference_outcome(s@) == Err::<
                    std::result::Result<Digest, Seq<char>>,
                    Fault,
                >(e@),
            },
    {
        let chars = chars_of(s);
        proof {
            lemma_first_index_bounds(s@, ':');
        }
        if find_char(chars.as_slice(), ':') < chars.len() {
            return match Digest::parse(s) {
                Ok(d) => Ok(Reference::Digest(d)),
                Err(e) => Err(RegistryError::DigestInvalid { reason: e.message() }),
            };
        }
        match validate_tag(s) {
            Ok(()) => Ok(Reference::Tag(s.to_owned())),
            Err(e) => Err(e),
        }
    }
}

/// Check a tag against `[a-zA-Z0-9_][a-zA-Z0-9._-]{0,127}`.
///
/// Enforced here rather than at the edge because the history and counter ranges
/// terminate a tag with NUL, which is only unambiguous while the grammar
/// guarantees a tag cannot contain one.
pub fn validate_tag(tag: &str) -> (r: Result<()>)
    ensures
        match r {
            Ok(()) => tag_objection(tag@) is None,
            Err(e) => tag_objection(tag@) is Some && e@ == Fault::TagInvalid(
                tag@,
                tag_objection(tag@)->0,
            ),
        },
{
    let chars = chars_of(tag);
    if chars.len() == 0 {
        return Err(tag_invalid(tag, "empty"));
    }
    let first = chars[0];
    if !(alphanumeric(first) || first == '_') {
        return Err(tag_invalid(tag, "first character must be alphanumeric or '_'"));
    }
    if chars.len() > MAX_TAG_LEN {
        return Err(tag_invalid(tag, "longer than 128 characters"));
    }
    let mut i: usize = 1;
    while i < chars.len()
        invariant
            1 <= i <= chars@.len(),
            chars@ == tag@,
            starts_tag(tag@[0]),
            tag@.len() <= MAX_TAG_LEN,
            forall|k: int| 1 <= k < i ==> continues_tag(#[trigger] tag@[k]),
        decreases chars@.len() - i,
    {
        let c = chars[i];
        if !(alphanumeric(c) || c == '.' || c == '_' || c == '-') {
            assert(!continues_tag(tag@[i as int]));
            return Err(tag_invalid(tag, "characters must be [a-zA-Z0-9._-]"));
        }
        i += 1;
    }
    Ok(())
}

fn tag_invalid(tag: &str, reason: &str) -> (r: RegistryError)
    ensures
        r@ == Fault::TagInvalid(tag@, reason@),
{
    RegistryError::TagInvalid { tag: tag.to_owned(), reason: reason.to_owned() }
}

} // verus!
