//! Legacy cosign artifact tags.
//!
//! A signature over `sha256:<hex>` is pushed as the tag `sha256-<hex>.sig`: the
//! subject is in the tag's name. Recognising one lets the registry treat it as a
//! referrer of its subject, so that it goes when the subject goes.
use vstd::prelude::*;

use crate::digest::{digest_text_round_trips, parsed_digest, Digest};
use crate::text::{
    chars_of, find_char, first_index, hex, last_index, lemma_first_index, lemma_first_index_bounds,
    lemma_last_index, lemma_last_index_bounds, rfind_char, str_eq,
};

verus! {

/// Suffixes cosign and friends use.
pub open spec fn is_artifact_suffix(s: Seq<char>) -> bool {
    s == "sig"@ || s == "sbom"@ || s == "att"@
}

/// The digest text that a tag of the shape `<algorithm>-<hex>.<suffix>` names:
/// the part before its last dot, with its first dash turned back into a colon.
pub open spec fn artifact_subject_text(tag: Seq<char>) -> Option<Seq<char>> {
    let dot = last_index(tag, '.');
    let head = tag.subrange(0, dot);
    let dash = first_index(head, '-');
    if dot < 0 || !is_artifact_suffix(tag.subrange(dot + 1, tag.len() as int)) || dash
        == head.len() {
        None
    } else {
        Some(head.subrange(0, dash) + ":"@ + head.subrange(dash + 1, head.len() as int))
    }
}

/// The subject that a legacy artifact tag names, if it is one.
pub open spec fn artifact_subject(tag: Seq<char>) -> Option<Digest> {
    match artifact_subject_text(tag) {
        Some(t) => parsed_digest(t),
        None => None,
    }
}

/// Recover the subject digest a legacy artifact tag names, if it is one.
///
/// Anything that does not parse as a digest this registry supports is an
/// ordinary tag and returns `None` - the check must never reject a tag, only
/// recognise one.
pub fn subject_of_artifact_tag(tag: &str) -> (r: Option<Digest>)
    ensures
        r == artifact_subject(tag@),
{
    let chars = chars_of(tag);
    proof {
        lemma_last_index_bounds(tag@, '.');
    }
    let dot: usize = match rfind_char(chars.as_slice(), '.') {
        Some(i) => i,
        None => return None,
    };
    let suffix = tag.substring_char(dot + 1, chars.len());
    if !(str_eq(suffix, "sig") || str_eq(suffix, "sbom") || str_eq(suffix, "att")) {
        return None;
    }
    let head = vstd::slice::slice_subrange(chars.as_slice(), 0, dot);
    proof {
        lemma_first_index_bounds(head@, '-');
    }
    let dash: usize = find_char(head, '-');
    if dash == head.len() {
        return None;
    }
    let mut text = tag.substring_char(0, dash).to_owned();
    text.append(":");
    text.append(tag.substring_char(dash + 1, dot));
    assert(text@ =~= artifact_subject_text(tag@)->0);
    match Digest::parse(text.as_str()) {
        Ok(d) => Some(d),
        Err(_) => None,
    }
}

/// The tag under which a digest's signature, attestation or bill of materials is pushed
/// names that digest as its subject.
pub proof fn an_artifact_tag_names_its_subject(d: Digest, suffix: Seq<char>)
    requires
        suffix == "sig"@ || suffix == "sbom"@ || suffix == "att"@,
    ensures
        artifact_subject(
            d.algorithm_name() + seq!['-'] + hex(d.raw_bytes()) + seq!['.'] + suffix,
        ) == Some(d),
{
    reveal_strlit("sig");
    reveal_strlit("sbom");
    reveal_strlit("att");
    reveal_strlit("sha256");
    reveal_strlit("sha512");
    reveal_strlit(":");
    let digits = hex(d.raw_bytes());
    let head = d.algorithm_name() + seq!['-'] + digits;
    let tag = head + seq!['.'] + suffix;
    let n = head.len() as int;
    assert forall|k: int| n < k < tag.len() implies tag[k] != '.' by {
        assert(tag[k] == suffix[k - n - 1]);
    }
    lemma_last_index(tag, '.', n);
    assert(tag.subrange(0, n) =~= head);
    assert(tag.subrange(n + 1, tag.len() as int) =~= suffix);
    assert forall|k: int| 0 <= k < 6 implies head[k] != '-' by {
        assert(head[k] == d.algorithm_name()[k]);
    }
    lemma_first_index(head, '-', 6);
    assert(head.subrange(0, 6) =~= d.algorithm_name());
    assert(head.subrange(7, head.len() as int) =~= digits);
    assert(":"@ =~= seq![':']);
    assert(artifact_subject_text(tag) == Some(d.text()));
    digest_text_round_trips(d);
}

/// A tag that names a subject is made of the subject's algorithm, a dash, its digits, a
/// dot and one of the three suffixes; any other tag is an ordinary one.
pub proof fn only_an_artifact_tag_names_a_subject(tag: Seq<char>)
    requires
        artifact_subject(tag) is Some,
    ensures
        exists|algorithm: Seq<char>, digits: Seq<char>, suffix: Seq<char>|
            {
                &&& tag == #[trigger] ((algorithm + seq!['-'] + digits) + (seq!['.'] + suffix))
                &&& suffix == "sig"@ || suffix == "sbom"@ || suffix == "att"@
                &&& parsed_digest(algorithm + seq![':'] + digits) == artifact_subject(tag)
            },
{
    reveal_strlit(":");
    lemma_last_index_bounds(tag, '.');
    let dot = last_index(tag, '.');
    let head = tag.subrange(0, dot);
    lemma_first_index_bounds(head, '-');
    let dash = first_index(head, '-');
    let (a, b, c) = (
        head.subrange(0, dash),
        head.subrange(dash + 1, head.len() as int),
        tag.subrange(dot + 1, tag.len() as int),
    );
    assert(":"@ =~= seq![':']);
    assert(tag =~= (a + seq!['-'] + b) + (seq!['.'] + c));
}

} // verus!
