//! The three grammars a request is checked against: repository name, tag, and
//! digest.
//!
//! [`Digest::parse`] is deliberately permissive: it accepts uppercase hex because
//! it also reads what this registry wrote. Clients' digests are lowercase only,
//! and that is enforced here.
use vstd::prelude::*;
use vstd::utf8::*;

use crate::digest::{
    digest_algorithm, digest_digits, digest_outcome, digest_text_is_plain, digest_text_round_trips,
    is_hex_of, pair_value, parsed_digest, Digest,
};
use crate::registry::reference::{continues_tag, starts_tag, tag_objection};
use crate::text::{
    lemma_first_index, digit_char, chars_of, find_char, first_index, hex, lemma_first_index_bounds,
    lemma_split_at, split, split_chars, splitting_is_undone_by_joining,
};

verus! {

/// Repository names are capped at 255 bytes: a longer name is unusable by every
/// real client.
pub const MAX_NAME_LEN: usize = 255;

/// Tags are at most 128 characters.
pub const MAX_TAG_LEN: usize = 128;

// --- names ---------------------------------------------------------------------

/// A lowercase letter or a digit.
pub open spec fn is_name_char(c: char) -> bool {
    'a' <= c <= 'z' || '0' <= c <= '9'
}

/// `[a-z0-9]+`
pub open spec fn is_run(s: Seq<char>) -> bool {
    s.len() > 0 && forall|i: int| 0 <= i < s.len() ==> is_name_char(#[trigger] s[i])
}

/// `\.|_|__|-+`
pub open spec fn is_separator(s: Seq<char>) -> bool {
    ||| s == seq!['.']
    ||| s == seq!['_']
    ||| s == seq!['_', '_']
    ||| s.len() > 0 && forall|i: int| 0 <= i < s.len() ==> #[trigger] s[i] == '-'
}

/// A separator repeats one character: a dot once, an underscore at most twice, a
/// hyphen any number of times.
proof fn lemma_separator_shape(s: Seq<char>)
    requires
        is_separator(s),
    ensures
        s.len() > 0,
        s[0] == '.' || s[0] == '_' || s[0] == '-',
        s[0] == '.' ==> s.len() == 1,
        s[0] == '_' ==> s.len() <= 2,
        forall|i: int| 0 <= i < s.len() ==> #[trigger] s[i] == s[0],
{
    if s == seq!['_', '_'] {
        assert(s[1] == '_');
    }
}

/// `[a-z0-9]+((\.|_|__|-+)[a-z0-9]+)*`
pub open spec fn is_component(s: Seq<char>) -> bool
    decreases s.len(),
{
    is_run(s) || exists|i: int, j: int|
        #![trigger s.subrange(0, i), s.subrange(i, j)]
        0 < i < j < s.len() && is_run(s.subrange(0, i)) && is_separator(s.subrange(i, j))
            && is_component(s.subrange(j, s.len() as int))
}

/// Components separated by slashes, at most 255 bytes in all.
pub open spec fn is_name(s: Seq<char>) -> bool {
    &&& s.len() > 0
    &&& encode_utf8(s).len() <= MAX_NAME_LEN
    &&& forall|i: int| 0 <= i < split(s, '/').len() ==> is_component(#[trigger] split(s, '/')[i])
}

/// Lowercase only, path components separated by `/`, each component an
/// alphanumeric run followed by zero or more pairs of a separator and a run, where
/// a separator is `.`, `_`, `__`, or one or more `-`.
pub fn valid_name(name: &str) -> (r: bool)
    ensures
        r == is_name(name@),
{
    let chars = chars_of(name);
    if chars.len() == 0 || name.as_bytes().len() > MAX_NAME_LEN {
        return false;
    }
    let parts = split_chars(chars.as_slice(), '/');
    let mut i: usize = 0;
    while i < parts.len()
        invariant
            i <= parts@.len(),
            parts.deep_view() == split(name@, '/'),
            name@.len() > 0,
            encode_utf8(name@).len() <= MAX_NAME_LEN,
            forall|k: int| 0 <= k < i ==> is_component(#[trigger] split(name@, '/')[k]),
        decreases parts@.len() - i,
    {
        proof {
            assert(parts@[i as int].deep_view() =~= parts@[i as int]@);
            assert(split(name@, '/')[i as int] == parts@[i as int]@);
        }
        if !valid_name_component(parts[i].as_slice()) {
            return false;
        }
        i += 1;
    }
    true
}

fn name_char(c: char) -> (r: bool)
    ensures
        r == is_name_char(c),
{
    ('a' <= c && c <= 'z') || ('0' <= c && c <= '9')
}

/// What `s` is, read from `from` on: a component exactly where the run of name
/// characters up to `run` ends it, or is followed by a separator up to `sep` and
/// another component.
proof fn lemma_component_step(s: Seq<char>, run: int, sep: int)
    requires
        0 < run < sep <= s.len(),
        forall|k: int| 0 <= k < run ==> is_name_char(#[trigger] s[k]),
        !is_name_char(s[run]),
        is_separator(s.subrange(run, sep)),
        sep < s.len() ==> s[sep] != s[run] || s[run] == '.',
    ensures
        is_component(s) == is_component(s.subrange(sep, s.len() as int)),
{
    let tail = s.subrange(sep, s.len() as int);
    let head = s.subrange(0, run);
    assert(is_run(head)) by {
        assert forall|k: int| 0 <= k < head.len() implies is_name_char(#[trigger] head[k]) by {
            assert(is_name_char(s[k]));
        }
    }
    if is_component(tail) {
        assert(tail.len() > 0) by {
            if tail.len() == 0 {
                assert(!is_run(tail));
            }
        }
        assert(s.subrange(0, run) == head);
        assert(0 < run < sep < s.len() && is_run(s.subrange(0, run)) && is_separator(
            s.subrange(run, sep),
        ) && is_component(s.subrange(sep, s.len() as int)));
    }
    if is_component(s) {
        assert(!is_run(s)) by {
            if is_run(s) {
                assert(is_name_char(s[run]));
            }
        }
        let (i, j) = choose|i: int, j: int|
            #![trigger s.subrange(0, i), s.subrange(i, j)]
            0 < i < j < s.len() && is_run(s.subrange(0, i)) && is_separator(s.subrange(i, j))
                && is_component(s.subrange(j, s.len() as int));
        let other = s.subrange(i, j);
        lemma_separator_shape(other);
        lemma_separator_shape(s.subrange(run, sep));
        let rest = s.subrange(j, s.len() as int);
        assert(i == run) by {
            if i < run {
                assert(other[0] == s[i]);
                assert(is_name_char(s[i]));
            } else if i > run {
                assert(s.subrange(0, i)[run] == s[run]);
            }
        }
        assert(is_name_char(rest[0])) by {
            if is_run(rest) {
            } else {
                let (x, y) = choose|x: int, y: int|
                    #![trigger rest.subrange(0, x), rest.subrange(x, y)]
                    0 < x < y < rest.len() && is_run(rest.subrange(0, x)) && is_separator(
                        rest.subrange(x, y),
                    ) && is_component(rest.subrange(y, rest.len() as int));
                assert(rest.subrange(0, x)[0] == rest[0]);
            }
        }
        assert(rest[0] == s[j]);
        assert(j == sep) by {
            let ours = s.subrange(run, sep);
            assert(ours[0] == s[run] && other[0] == s[run]);
            if j < sep {
                assert(ours[j - run] == s[j]);
            } else if j > sep {
                assert(other[sep - run] == s[sep]);
            }
        }
    }
}

fn valid_name_component(s: &[char]) -> (r: bool)
    ensures
        r == is_component(s@),
{
    let mut from: usize = 0;
    proof {
        assert(s@.subrange(0, s@.len() as int) =~= s@);
    }
    while from < s.len()
        invariant
            from <= s@.len(),
            is_component(s@) == is_component(s@.subrange(from as int, s@.len() as int)),
        decreases s@.len() - from,
    {
        let ghost rest = s@.subrange(from as int, s@.len() as int);
        // An alphanumeric run. Required at the start of the component and after
        // every separator.
        let mut i: usize = from;
        while i < s.len() && name_char(s[i])
            invariant
                from <= i <= s@.len(),
                forall|k: int| from <= k < i ==> is_name_char(#[trigger] s@[k]),
            decreases s@.len() - i,
        {
            i += 1;
        }
        let ghost run = i - from;
        assert forall|k: int| 0 <= k < run implies is_name_char(#[trigger] rest[k]) by {
            assert(is_name_char(s@[from + k]));
        }
        if i == from {
            proof {
                lemma_starts_with_name_char(rest);
            }
            return false;
        }
        if i == s.len() {
            assert(is_run(rest));
            return true;
        }
        let c = s[i];
        assert(rest[run as int] == c);
        let mut end: usize = i;
        if c == '.' {
            end = i + 1;
        } else if c == '_' || c == '-' {
            // `_` or `__`, but not `___`; any number of hyphens.
            while end < s.len() && s[end] == c
                invariant
                    i <= end <= s@.len(),
                    forall|k: int| i <= k < end ==> #[trigger] s@[k] == c,
                    i < s@.len(),
                    s@[i as int] == c,
                decreases s@.len() - end,
            {
                end += 1;
            }
        }
        if end == i || (c == '_' && end - i > 2) {
            proof {
                lemma_bad_separator(rest, run as int, end - from);
            }
            return false;
        }
        proof {
            let sep = rest.subrange(run as int, end - from);
            assert forall|k: int| 0 <= k < sep.len() implies #[trigger] sep[k] == c by {
                assert(sep[k] == s@[i + k]);
            }
            if c == '.' {
                assert(sep =~= seq!['.']);
            } else if c == '_' {
                if sep.len() == 1 {
                    assert(sep =~= seq!['_']);
                } else {
                    assert(sep =~= seq!['_', '_']);
                }
            }
            if end < s@.len() {
                assert(rest[end - from] == s@[end as int]);
            }
            lemma_component_step(rest, run as int, end - from);
            assert(rest.subrange(end - from, rest.len() as int) =~= s@.subrange(
                end as int,
                s@.len() as int,
            ));
        }
        from = end;
    }
    proof {
        lemma_starts_with_name_char(s@.subrange(from as int, s@.len() as int));
    }
    false
}

/// A component begins with a name character.
proof fn lemma_starts_with_name_char(s: Seq<char>)
    ensures
        is_component(s) ==> s.len() > 0 && is_name_char(s[0]),
{
    if is_component(s) && !is_run(s) {
        let (i, j) = choose|i: int, j: int|
            #![trigger s.subrange(0, i), s.subrange(i, j)]
            0 < i < j < s.len() && is_run(s.subrange(0, i)) && is_separator(s.subrange(i, j))
                && is_component(s.subrange(j, s.len() as int));
        assert(s.subrange(0, i)[0] == s[0]);
    }
}

/// A run followed by what is no separator is no component: another character, or
/// three or more underscores.
proof fn lemma_bad_separator(s: Seq<char>, run: int, end: int)
    requires
        0 < run < s.len(),
        run <= end <= s.len(),
        forall|k: int| 0 <= k < run ==> is_name_char(#[trigger] s[k]),
        !is_name_char(s[run]),
        end == run ==> s[run] != '.' && s[run] != '_' && s[run] != '-',
        end > run ==> end - run > 2 && forall|k: int| run <= k < end ==> #[trigger] s[k] == '_',
    ensures
        !is_component(s),
{
    if is_component(s) {
        if is_run(s) {
            assert(is_name_char(s[run]));
        }
        let (i, j) = choose|i: int, j: int|
            #![trigger s.subrange(0, i), s.subrange(i, j)]
            0 < i < j < s.len() && is_run(s.subrange(0, i)) && is_separator(s.subrange(i, j))
                && is_component(s.subrange(j, s.len() as int));
        let sep = s.subrange(i, j);
        lemma_separator_shape(sep);
        assert(sep[0] == s[i]);
        if i < run {
            assert(is_name_char(s[i]));
        } else if i > run {
            assert(s.subrange(0, i)[run] == s[run]);
        }
        assert(i == run);
        lemma_starts_with_name_char(s.subrange(j, s.len() as int));
        assert(s.subrange(j, s.len() as int)[0] == s[j]);
        if end > run {
            assert(s[run] == '_');
            if j < end {
                assert(s[j] == '_');
            } else {
                assert(s[run + 1] == '_' && s[run + 2] == '_');
                assert(sep[1] == s[run + 1]);
                assert(sep[2] == s[run + 2]);
            }
        }
    }
}

/// A repository name holds no uppercase letter, no space and no colon, and neither
/// begins nor ends with a slash.
pub proof fn names_are_plain(s: Seq<char>, i: int)
    requires
        is_name(s),
        0 <= i < s.len(),
    ensures
        is_name_char(s[i]) || s[i] == '.' || s[i] == '_' || s[i] == '-' || s[i] == '/',
{
    lemma_split_finds(s, i);
    if s[i] != '/' {
        let (k, x) = choose|k: int, x: int|
            0 <= k < split(s, '/').len() && 0 <= x < split(s, '/')[k].len() && #[trigger] split(
                s,
                '/',
            )[k][x] == s[i];
        lemma_component_chars(split(s, '/')[k], x);
    }
}

pub proof fn lemma_component_chars(s: Seq<char>, x: int)
    requires
        is_component(s),
        0 <= x < s.len(),
    ensures
        is_name_char(s[x]) || s[x] == '.' || s[x] == '_' || s[x] == '-',
    decreases s.len(),
{
    if !is_run(s) {
        let (i, j) = choose|i: int, j: int|
            #![trigger s.subrange(0, i), s.subrange(i, j)]
            0 < i < j < s.len() && is_run(s.subrange(0, i)) && is_separator(s.subrange(i, j))
                && is_component(s.subrange(j, s.len() as int));
        if x < i {
            assert(s.subrange(0, i)[x] == s[x]);
        } else if x < j {
            lemma_separator_shape(s.subrange(i, j));
            assert(s.subrange(i, j)[x - i] == s[x]);
        } else {
            lemma_component_chars(s.subrange(j, s.len() as int), x - j);
        }
    }
}

/// A character that is no separator stands in some part.
proof fn lemma_split_finds(s: Seq<char>, i: int)
    requires
        0 <= i < s.len(),
    ensures
        s[i] != '/' ==> exists|k: int, x: int|
            0 <= k < split(s, '/').len() && 0 <= x < split(s, '/')[k].len() && #[trigger] split(
                s,
                '/',
            )[k][x] == s[i],
    decreases s.len(),
{
    lemma_first_index_bounds(s, '/');
    let n = first_index(s, '/');
    if s[i] != '/' {
        if n == s.len() {
            assert(split(s, '/')[0][i] == s[i]);
        } else if i < n {
            assert(split(s, '/')[0][i] == s[i]);
        } else {
            let tail = s.subrange(n + 1, s.len() as int);
            lemma_split_finds(tail, i - n - 1);
            let (k, x) = choose|k: int, x: int|
                0 <= k < split(tail, '/').len() && 0 <= x < split(tail, '/')[k].len()
                    && #[trigger] split(tail, '/')[k][x] == tail[i - n - 1];
            assert(split(s, '/')[k + 1][x] == s[i]);
        }
    }
}

// --- tags ------------------------------------------------------------------------

/// `[a-zA-Z0-9_][a-zA-Z0-9._-]{0,127}`
pub open spec fn is_tag(s: Seq<char>) -> bool {
    &&& 0 < s.len() <= MAX_TAG_LEN
    &&& starts_tag(s[0])
    &&& forall|i: int| 1 <= i < s.len() ==> continues_tag(#[trigger] s[i])
}

/// The registry and the HTTP surface agree on which tags there are.
pub proof fn both_tag_grammars_agree(s: Seq<char>)
    ensures
        is_tag(s) == (tag_objection(s) is None),
{
}

fn tag_char(c: char) -> (r: bool)
    ensures
        r == continues_tag(c),
{
    ('a' <= c && c <= 'z') || ('A' <= c && c <= 'Z') || ('0' <= c && c <= '9') || c == '.' || c
        == '_' || c == '-'
}

/// `[a-zA-Z0-9_][a-zA-Z0-9._-]{0,127}`. Mixed case is allowed for tags, unlike for
/// names.
pub fn valid_tag(tag: &str) -> (r: bool)
    ensures
        r == is_tag(tag@),
{
    let chars = chars_of(tag);
    if chars.len() == 0 || chars.len() > MAX_TAG_LEN {
        return false;
    }
    let c = chars[0];
    if !tag_char(c) || c == '.' || c == '-' {
        return false;
    }
    let mut i: usize = 1;
    while i < chars.len()
        invariant
            1 <= i <= chars@.len(),
            chars@ == tag@,
            forall|k: int| 1 <= k < i ==> continues_tag(#[trigger] tag@[k]),
        decreases chars@.len() - i,
    {
        if !tag_char(chars[i]) {
            assert(!continues_tag(tag@[i as int]));
            return false;
        }
        i += 1;
    }
    true
}

// --- digests -----------------------------------------------------------------------

/// Why a digest was refused, in words.
#[derive(Debug, Clone, PartialEq, Eq)]
pub struct DigestError(pub String);

/// What a digest in a request is, or why it is none.
pub open spec fn digest_request(s: Seq<char>) -> Result<Digest, Seq<char>> {
    let n = first_index(s, ':');
    let encoded = digest_digits(s);
    if n == s.len() {
        Err("missing algorithm separator: "@ + s)
    } else if n == 0 || encoded.len() == 0 {
        Err("malformed digest: "@ + s)
    } else if exists|i: int| 0 <= i < encoded.len() && !is_name_char(#[trigger] encoded[i]) {
        Err("digest encoding must be lowercase: "@ + s)
    } else {
        match digest_outcome(s) {
            Ok(_) => Ok(parsed_digest(s)->0),
            Err(words) => Err("invalid digest: "@ + words),
        }
    }
}

/// Parse a digest as a request may write it.
///
/// Uppercase hex would round-trip to a *different* string, so a digest that
/// differs only in case would be silently accepted and then echoed back
/// lowercased; the case check has to happen before the parse. A digest that is
/// accepted is the very text it was parsed from.
pub fn parse_digest(s: &str) -> (r: Result<Digest, DigestError>)
    ensures
        match r {
            Ok(d) => digest_request(s@) == Ok::<Digest, Seq<char>>(d) && d.text() == s@,
            Err(e) => digest_request(s@) == Err::<Digest, Seq<char>>(e.0@),
        },
{
    let chars = chars_of(s);
    let n: usize = find_char(chars.as_slice(), ':');
    if n == chars.len() {
        return Err(DigestError("missing algorithm separator: ".to_owned().concat(s)));
    }
    let encoded = vstd::slice::slice_subrange(chars.as_slice(), n + 1, chars.len());
    if n == 0 || encoded.len() == 0 {
        return Err(DigestError("malformed digest: ".to_owned().concat(s)));
    }
    let mut i: usize = 0;
    while i < encoded.len()
        invariant
            i <= encoded@.len(),
            0 < n < s@.len(),
            n == first_index(s@, ':'),
            encoded@ == digest_digits(s@),
            encoded@.len() > 0,
            forall|k: int| 0 <= k < i ==> is_name_char(#[trigger] encoded@[k]),
        decreases encoded@.len() - i,
    {
        if !name_char(encoded[i]) {
            assert(!is_name_char(encoded@[i as int]));
            return Err(DigestError("digest encoding must be lowercase: ".to_owned().concat(s)));
        }
        i += 1;
    }
    match Digest::parse(s) {
        Ok(d) => {
            proof {
                lemma_canonical(s@, d);
            }
            Ok(d)
        },
        Err(e) => Err(DigestError(e.message())),
    }
}

/// A digest in lowercase reads back as it was written.
proof fn lemma_canonical(s: Seq<char>, d: Digest)
    requires
        digest_request(s) is Ok,
        digest_outcome(s) == Ok::<(bool, Seq<u8>), Seq<char>>((d is Sha512, d.raw_bytes())),
    ensures
        d.text() == s,
{
    let raw = d.raw_bytes();
    let h = digest_digits(s);
    let n = first_index(s, ':');
    lemma_first_index_bounds(s, ':');
    assert(h.len() == 2 * raw.len() && is_hex_of(h, raw.len()));
    assert forall|i: int| 0 <= i < h.len() implies hex(raw)[i] == h[i] by {
        let k = i / 2;
        let (a, b) = (h[2 * k], h[2 * k + 1]);
        assert(is_name_char(h[2 * k]) && is_name_char(h[2 * k + 1]));
        assert(pair_value(h[2 * k], h[2 * k + 1]) is Some);
        assert(raw[k] == pair_value(a, b)->0);
    }
    assert(hex(raw) =~= h);
    assert(digest_algorithm(s) == d.algorithm_name());
    assert(s =~= digest_algorithm(s) + seq![':'] + h);
}

// --- references ----------------------------------------------------------------------

/// A `<tag-or-digest>` path component.
#[derive(Debug, Clone, PartialEq, Eq)]
pub enum Reference {
    Tag(String),
    Digest(Digest),
}

/// Why a `<tag-or-digest>` was rejected. The distinction matters: a malformed
/// digest is unambiguously a client error, whereas a malformed tag merely cannot
/// name anything.
#[derive(Debug, Clone, PartialEq, Eq)]
pub enum ReferenceError {
    Digest(String),
    Tag(String),
}

/// What a reference is.
pub enum Referred {
    Tag(Seq<char>),
    Digest(Digest),
}

impl DeepView for Reference {
    type V = Referred;

    open spec fn deep_view(&self) -> Referred {
        match self {
            Reference::Tag(t) => Referred::Tag(t@),
            Reference::Digest(d) => Referred::Digest(*d),
        }
    }
}

/// What a reference in a request is; or whether it was offered as a digest, and
/// the words of the refusal.
pub open spec fn reference_request(s: Seq<char>) -> Result<Referred, (bool, Seq<char>)> {
    if s.contains(':') {
        match digest_request(s) {
            Ok(d) => Ok(Referred::Digest(d)),
            Err(words) => Err((true, words)),
        }
    } else if is_tag(s) {
        Ok(Referred::Tag(s))
    } else {
        Err((false, "invalid tag: "@ + s))
    }
}

/// What a refusal says.
pub open spec fn refusal(e: ReferenceError) -> (bool, Seq<char>) {
    match e {
        ReferenceError::Digest(m) => (true, m@),
        ReferenceError::Tag(m) => (false, m@),
    }
}

impl Reference {
    pub fn as_digest(&self) -> (r: Option<&Digest>)
        ensures
            match self {
                Reference::Digest(d) => r == Some(d),
                Reference::Tag(_) => r is None,
            },
    {
        match self {
            Reference::Digest(d) => Some(d),
            Reference::Tag(_) => None,
        }
    }

    /// The reference as a client writes it.
    pub fn to_text(&self) -> (r: String)
        ensures
            r@ == match *self {
                Reference::Tag(t) => t@,
                Reference::Digest(d) => d.text(),
            },
    {
        match self {
            Reference::Tag(t) => t.as_str().to_owned(),
            Reference::Digest(d) => d.to_text(),
        }
    }
}

/// Disambiguate a `<tag-or-digest>`.
///
/// **The rule is the presence of `:`, not whether the digest parses.** A reference
/// containing a colon is being *offered* as a digest, so one that fails to parse is
/// a bad digest, not a tag that is not there. The rule is self-consistent because
/// `:` is not in the tag grammar either.
pub fn parse_reference(s: &str) -> (r: Result<Reference, ReferenceError>)
    ensures
        match r {
            Ok(reference) => reference_request(s@) == Ok::<Referred, (bool, Seq<char>)>(
                reference.deep_view(),
            ),
            Err(e) => reference_request(s@) == Err::<Referred, (bool, Seq<char>)>(refusal(e)),
        },
{
    let chars = chars_of(s);
    proof {
        lemma_first_index_bounds(s@, ':');
    }
    if find_char(chars.as_slice(), ':') < chars.len() {
        match parse_digest(s) {
            Ok(d) => Ok(Reference::Digest(d)),
            Err(e) => Err(ReferenceError::Digest(e.0)),
        }
    } else if valid_tag(s) {
        Ok(Reference::Tag(s.to_owned()))
    } else {
        Err(ReferenceError::Tag("invalid tag: ".to_owned().concat(s)))
    }
}

/// A digest is requested by its text.
pub proof fn digests_are_requested_by_their_text(d: Digest)
    ensures
        digest_request(d.text()) == Ok::<Digest, Seq<char>>(d),
        reference_request(d.text()) == Ok::<Referred, (bool, Seq<char>)>(Referred::Digest(d)),
{
    reveal_strlit("sha256");
    reveal_strlit("sha512");
    let s = d.text();
    digest_text_round_trips(d);
    digest_text_is_plain(d, 0);
    assert(s[6] == ':');
    assert forall|k: int| 0 <= k < 6 implies s[k] != ':' by {}
    lemma_first_index(s, ':', 6);
    let encoded = digest_digits(s);
    assert(encoded =~= hex(d.raw_bytes()));
    assert forall|i: int| 0 <= i < encoded.len() implies is_name_char(#[trigger] encoded[i]) by {
        let raw = d.raw_bytes();
        let v = if i % 2 == 0 {
            raw[i / 2] as int / 16
        } else {
            raw[i / 2] as int % 16
        };
        assert(0 <= v < 16);
        assert(hex(raw)[i] == digit_char(v));
    }
    assert(s.contains(':'));
}

// --- what the grammars hold --------------------------------------------------------

/// A run of lowercase letters and digits is a component; and a component with a single
/// dot, one or two underscores, or any number of hyphens behind it, and a run behind
/// that, is one.
#[verifier::rlimit(40)]
pub proof fn components_are_runs_between_separators(
    head: Seq<char>,
    separator: Seq<char>,
    run: Seq<char>,
)
    requires
        run.len() > 0,
        forall|i: int| 0 <= i < run.len() ==> 'a' <= (#[trigger] run[i]) <= 'z' || '0' <= run[i] <= '9',
    ensures
        is_component(run),
        is_component(head) && (separator == seq!['.'] || separator == seq!['_'] || separator == seq![
            '_',
            '_',
        ] || (separator.len() > 0 && forall|i: int|
            0 <= i < separator.len() ==> #[trigger] separator[i] == '-')) ==> is_component(
            head + separator + run,
        ),
    decreases head.len(),
{
    assert(is_run(run));
    if is_component(head) && is_separator(separator) {
        let whole = head + separator + run;
        if is_run(head) {
            let (i, j) = (head.len() as int, (head.len() + separator.len()) as int);
            assert(whole.subrange(0, i) =~= head);
            assert(whole.subrange(i, j) =~= separator);
            assert(whole.subrange(j, whole.len() as int) =~= run);
            assert(0 < i < j < whole.len() && is_run(whole.subrange(0, i)) && is_separator(
                whole.subrange(i, j),
            ) && is_component(whole.subrange(j, whole.len() as int)));
        } else {
            let (i, j) = choose|i: int, j: int|
                #![trigger head.subrange(0, i), head.subrange(i, j)]
                0 < i < j < head.len() && is_run(head.subrange(0, i)) && is_separator(
                    head.subrange(i, j),
                ) && is_component(head.subrange(j, head.len() as int));
            let rest = head.subrange(j, head.len() as int);
            components_are_runs_between_separators(rest, separator, run);
            assert(whole.subrange(0, i) =~= head.subrange(0, i));
            assert(whole.subrange(i, j) =~= head.subrange(i, j));
            assert(whole.subrange(j, whole.len() as int) =~= rest + separator + run);
            assert(0 < i < j < whole.len() && is_run(whole.subrange(0, i)) && is_separator(
                whole.subrange(i, j),
            ) && is_component(whole.subrange(j, whole.len() as int)));
        }
    }
}

/// A component begins and ends with a letter or a digit.
pub proof fn components_begin_and_end_plainly(s: Seq<char>)
    requires
        is_component(s),
    ensures
        s.len() > 0,
        is_name_char(s[0]),
        is_name_char(s.last()),
    decreases s.len(),
{
    lemma_starts_with_name_char(s);
    if !is_run(s) {
        let (i, j) = choose|i: int, j: int|
            #![trigger s.subrange(0, i), s.subrange(i, j)]
            0 < i < j < s.len() && is_run(s.subrange(0, i)) && is_separator(s.subrange(i, j))
                && is_component(s.subrange(j, s.len() as int));
        let rest = s.subrange(j, s.len() as int);
        components_begin_and_end_plainly(rest);
        assert(rest.last() == s.last());
    }
}

/// Two names with a slash between them are a name, and nothing else with a slash is one,
/// as long as it is no longer than a name may be.
#[verifier::rlimit(40)]
pub proof fn names_are_names_under_names(a: Seq<char>, b: Seq<char>)
    ensures
        is_name(a + seq!['/'] + b) ==> is_name(a) && is_name(b),
        is_name(a) && is_name(b) && a.len() + 1 + b.len() <= 255 ==> is_name(a + seq!['/'] + b),
        is_component(a) && a.len() <= 255 ==> is_name(a),
        a.len() == 0 || a.len() > 255 ==> !is_name(a),
{
    let whole = a + seq!['/'] + b;
    lemma_split_at(a, b, '/');
    let (x, y, z) = (split(a, '/'), split(b, '/'), split(whole, '/'));
    splitting_is_undone_by_joining(a, '/');
    splitting_is_undone_by_joining(b, '/');
    assert(forall|i: int| 0 <= i < x.len() ==> z[i] == x[i]);
    assert(forall|i: int| 0 <= i < y.len() ==> z[x.len() + i] == y[i]);
    if is_name(whole) {
        lemma_name_is_ascii(whole);
        assert forall|i: int| 0 <= i < x.len() implies is_component(#[trigger] x[i]) by {
            assert(is_component(z[i]));
        }
        assert forall|i: int| 0 <= i < y.len() implies is_component(#[trigger] y[i]) by {
            assert(is_component(z[x.len() + i]));
        }
        lemma_parts_name(a, whole);
        lemma_parts_name(b, whole);
    }
    if is_name(a) && is_name(b) && a.len() + 1 + b.len() <= 255 {
        assert forall|i: int| 0 <= i < z.len() implies is_component(#[trigger] z[i]) by {
            if i < x.len() {
                assert(is_component(x[i]));
            } else {
                assert(is_component(y[i - x.len()]));
            }
        }
        lemma_components_are_ascii(whole);
    }
    if is_component(a) && a.len() <= 255 {
        assert(!a.contains('/')) by {
            if a.contains('/') {
                let k = choose|k: int| 0 <= k < a.len() && a[k] == '/';
                lemma_component_chars(a, k);
            }
        }
        lemma_first_index_bounds(a, '/');
        assert(split(a, '/') == seq![a]);
        components_begin_and_end_plainly(a);
        lemma_components_are_ascii(a);
    }
    if is_name(a) {
        lemma_name_is_ascii(a);
    }
}

/// Parts that are components hold ASCII alone.
proof fn lemma_components_are_ascii(s: Seq<char>)
    requires
        forall|i: int| 0 <= i < split(s, '/').len() ==> is_component(#[trigger] split(s, '/')[i]),
    ensures
        encode_utf8(s).len() == s.len(),
{
    assert forall|i: int| 0 <= i < s.len() implies '\0' <= #[trigger] s[i] <= '\u{7f}' by {
        lemma_split_finds(s, i);
        if s[i] != '/' {
            let (k, x) = choose|k: int, x: int|
                0 <= k < split(s, '/').len() && 0 <= x < split(s, '/')[k].len() && #[trigger] split(
                    s,
                    '/',
                )[k][x] == s[i];
            lemma_component_chars(split(s, '/')[k], x);
        }
    }
    is_ascii_chars_encode_utf8(s);
}

proof fn lemma_name_is_ascii(s: Seq<char>)
    requires
        is_name(s),
    ensures
        encode_utf8(s).len() == s.len(),
{
    lemma_components_are_ascii(s);
}

/// A part of a name whose components are the name's own is a name.
proof fn lemma_parts_name(part: Seq<char>, whole: Seq<char>)
    requires
        is_name(whole),
        part.len() <= whole.len(),
        forall|i: int| 0 <= i < split(part, '/').len() ==> is_component(#[trigger] split(part, '/')[i]),
    ensures
        is_name(part),
{
    lemma_components_are_ascii(part);
    lemma_name_is_ascii(whole);
    if part.len() == 0 {
        lemma_first_index_bounds(part, '/');
        assert(split(part, '/')[0] == part);
        components_begin_and_end_plainly(part);
    }
}

/// What a tag may be, character by character.
pub proof fn tags_are_what_the_grammar_says(s: Seq<char>, i: int)
    ensures
        s.len() == 0 || s.len() > 128 ==> !is_tag(s),
        s.len() > 0 && (s[0] == '.' || s[0] == '-') ==> !is_tag(s),
        0 <= i < s.len() && !('a' <= s[i] <= 'z' || 'A' <= s[i] <= 'Z' || '0' <= s[i] <= '9' || s[i]
            == '.' || s[i] == '_' || s[i] == '-') ==> !is_tag(s),
        0 < s.len() <= 128 && s[0] != '.' && s[0] != '-' && (forall|k: int|
            0 <= k < s.len() ==> 'a' <= (#[trigger] s[k]) <= 'z' || 'A' <= s[k] <= 'Z' || '0' <= s[k]
                <= '9' || s[k] == '.' || s[k] == '_' || s[k] == '-') ==> is_tag(s),
{
    if is_tag(s) && 0 < i < s.len() {
        assert(continues_tag(s[i]));
    }
}

/// A digest in a request is taken only where it is written as this registry writes it,
/// though what was stored may be read in uppercase too.
pub proof fn a_digest_is_requested_by_its_text_alone(s: Seq<char>, d: Digest)
    requires
        digest_outcome(s) == Ok::<(bool, Seq<u8>), Seq<char>>((d is Sha512, d.raw_bytes())),
    ensures
        digest_request(s) is Ok <==> s == d.text(),
        digest_request(s) is Ok ==> digest_request(s) == Ok::<Digest, Seq<char>>(d),
{
    digests_are_requested_by_their_text(d);
    if digest_request(s) is Ok {
        lemma_canonical(s, d);
    }
}

/// What is offered without a colon is a tag or nothing, and what is offered with one is a
/// digest or refused as one.
pub proof fn a_colon_makes_a_digest(s: Seq<char>)
    ensures
        s.contains(':') ==> !(reference_request(s) matches Ok(Referred::Tag(_))),
        s.contains(':') && reference_request(s) is Err ==> (reference_request(s)->Err_0).0,
        !s.contains(':') && is_tag(s) ==> reference_request(s) == Ok::<
            Referred,
            (bool, Seq<char>),
        >(Referred::Tag(s)),
        !s.contains(':') && !is_tag(s) ==> reference_request(s) is Err && !(reference_request(
            s,
        )->Err_0).0,
{
}

} // verus!
