//! Query-string and percent-encoding helpers.
//!
//! Several parameters repeat (`?tag=a&tag=b`), so pairs keep their order and their
//! repeats; and an escaped value has to be byte-compatible with what clients have
//! been parsing for a decade.
use vstd::prelude::*;
use vstd::utf8::*;

use crate::text::{
    chars_of, find_char, first_index, lemma_first_index_bounds, split, split_chars, str_eq, text_of,
};

verus! {

/// The value of a hexadecimal digit, as a byte, of either case.
pub open spec fn hex_digit_value(c: u8) -> Option<int> {
    if 0x30 <= c <= 0x39 {
        Some(c - 0x30)
    } else if 0x61 <= c <= 0x66 {
        Some(c - 0x61 + 10)
    } else if 0x41 <= c <= 0x46 {
        Some(c - 0x41 + 10)
    } else {
        None
    }
}

/// The byte that two hexadecimal digits write.
pub open spec fn hex_pair_value(hi: u8, lo: u8) -> Option<u8> {
    match (hex_digit_value(hi), hex_digit_value(lo)) {
        (Some(a), Some(b)) => Some((16 * a + b) as u8),
        _ => None,
    }
}

/// The bytes that are left when each `%XX` is the byte it writes and, where a plus
/// sign means a space, each plus sign is one. An escape that does not parse stays
/// as it is.
pub open spec fn percent_decoded(b: Seq<u8>, plus_is_space: bool) -> Seq<u8>
    decreases b.len(),
{
    if b.len() == 0 {
        Seq::empty()
    } else if b[0] == 0x25 && b.len() > 2 && hex_pair_value(b[1], b[2]) is Some {
        seq![hex_pair_value(b[1], b[2])->0] + percent_decoded(
            b.subrange(3, b.len() as int),
            plus_is_space,
        )
    } else if b[0] == 0x2b && plus_is_space {
        seq![0x20u8] + percent_decoded(b.drop_first(), plus_is_space)
    } else {
        seq![b[0]] + percent_decoded(b.drop_first(), plus_is_space)
    }
}

/// Bytes without an escape, and without a plus sign where that means a space, are
/// left as they are.
pub proof fn lemma_undecoded(b: Seq<u8>, plus_is_space: bool)
    requires
        forall|i: int| 0 <= i < b.len() ==> #[trigger] b[i] != 0x25,
        plus_is_space ==> forall|i: int| 0 <= i < b.len() ==> #[trigger] b[i] != 0x2b,
    ensures
        percent_decoded(b, plus_is_space) == b,
    decreases b.len(),
{
    if b.len() > 0 {
        lemma_undecoded(b.drop_first(), plus_is_space);
        assert(b =~= seq![b[0]] + b.drop_first());
    }
}

/// The text made of bytes that are not all text.
pub uninterp spec fn lossy_text(bytes: Seq<u8>) -> Seq<char>;

/// The text that some bytes are, or stand for.
pub open spec fn bytes_text(bytes: Seq<u8>) -> Seq<char> {
    if valid_utf8(bytes) {
        decode_utf8(bytes)
    } else {
        lossy_text(bytes)
    }
}

/// `String::from_utf8_lossy`: bytes that are valid UTF-8 are the text they encode;
/// what other bytes become depends on the bytes alone.
#[verifier::external_body]
fn lossy(bytes: &[u8]) -> (r: String)
    ensures
        r@ == if valid_utf8(bytes@) {
            decode_utf8(bytes@)
        } else {
            lossy_text(bytes@)
        },
{
    String::from_utf8_lossy(bytes).into_owned()
}

/// A query value, decoded.
pub open spec fn form_decoded(s: Seq<char>) -> Seq<char> {
    bytes_text(percent_decoded(encode_utf8(s), true))
}

/// A path segment, decoded.
pub open spec fn path_decoded(s: Seq<char>) -> Seq<char> {
    bytes_text(percent_decoded(encode_utf8(s), false))
}

/// The key and value that a part of a query is.
pub open spec fn pair_of(part: Seq<char>) -> (Seq<char>, Seq<char>) {
    let i = first_index(part, '=');
    if i == part.len() {
        (form_decoded(part), Seq::empty())
    } else {
        (
            form_decoded(part.subrange(0, i)),
            form_decoded(part.subrange(i + 1, part.len() as int)),
        )
    }
}

/// The parts of a query that are not empty.
pub open spec fn query_parts(query: Seq<char>) -> Seq<Seq<char>> {
    split(query, '&').filter(|p: Seq<char>| p.len() > 0)
}

/// The pairs of a query, in order, repeats and all.
pub open spec fn pairs_of(query: Seq<char>) -> Seq<(Seq<char>, Seq<char>)> {
    query_parts(query).map_values(|p: Seq<char>| pair_of(p))
}

/// The pairs with a key.
pub open spec fn pairs_with(pairs: Seq<(Seq<char>, Seq<char>)>, key: Seq<char>) -> Seq<
    (Seq<char>, Seq<char>),
> {
    pairs.filter(|p: (Seq<char>, Seq<char>)| p.0 == key)
}

/// Every value of a key, in order.
pub open spec fn values_of(pairs: Seq<(Seq<char>, Seq<char>)>, key: Seq<char>) -> Seq<Seq<char>> {
    let found = pairs_with(pairs, key);
    Seq::new(found.len(), |i: int| found[i].1)
}

/// The first value of a key.
pub open spec fn first_value(pairs: Seq<(Seq<char>, Seq<char>)>, key: Seq<char>) -> Option<
    Seq<char>,
>
    decreases pairs.len(),
{
    if pairs.len() == 0 {
        None
    } else if pairs[0].0 == key {
        Some(pairs[0].1)
    } else {
        first_value(pairs.drop_first(), key)
    }
}

/// Split a raw query string into pairs, preserving order and repeats.
///
/// A key with no `=` yields an empty value. Undecodable percent escapes are left
/// literal rather than failing the whole request: the value will then simply not
/// match anything valid.
pub fn pairs(query: &str) -> (r: Vec<(String, String)>)
    ensures
        r.deep_view() == pairs_of(query@),
{
    let chars = chars_of(query);
    let parts = split_chars(chars.as_slice(), '&');
    let ghost all = split(query@, '&');
    let ghost full = |p: Seq<char>| p.len() > 0;
    let ghost pair = |p: Seq<char>| pair_of(p);
    let mut out: Vec<(String, String)> = Vec::new();
    let mut i: usize = 0;
    proof {
        reveal(Seq::filter);
        assert(all.subrange(0, 0).filter(full) =~= Seq::<Seq<char>>::empty());
        assert(out.deep_view() =~= all.subrange(0, 0).filter(full).map_values(pair));
    }
    while i < parts.len()
        invariant
            i <= parts@.len(),
            all == parts.deep_view(),
            full == (|p: Seq<char>| p.len() > 0),
            pair == (|p: Seq<char>| pair_of(p)),
            out.deep_view() == all.subrange(0, i as int).filter(full).map_values(pair),
        decreases parts@.len() - i,
    {
        let part = parts[i].as_slice();
        let ghost seen = all.subrange(0, i as int);
        proof {
            assert(parts@[i as int].deep_view() =~= part@);
            assert(all[i as int] == part@);
            reveal(Seq::filter);
            assert(all.subrange(0, i + 1).drop_last() =~= seen);
            assert(all.subrange(0, i + 1).last() == part@);
        }
        if part.len() > 0 {
            let eq: usize = find_char(part, '=');
            proof {
                lemma_first_index_bounds(part@, '=');
            }
            let ghost before = out.deep_view();
            let one = if eq == part.len() {
                (form_decode(text_of(part).as_str()), String::new())
            } else {
                let key = text_of(vstd::slice::slice_subrange(part, 0, eq));
                let value = text_of(vstd::slice::slice_subrange(part, eq + 1, part.len()));
                (form_decode(key.as_str()), form_decode(value.as_str()))
            };
            out.push(one);
            proof {
                assert(one.deep_view() == pair_of(part@));
                assert(out.deep_view() =~= before.push(pair_of(part@)));
                assert(seen.filter(full).push(part@).map_values(pair) =~= seen.filter(
                    full,
                ).map_values(pair).push(pair_of(part@)));
            }
        }
        i += 1;
    }
    assert(all.subrange(0, i as int) =~= all);
    out
}

/// First value for `key`, or `None`.
pub fn first<'a>(pairs: &'a [(String, String)], key: &str) -> (r: Option<&'a str>)
    ensures
        match r {
            Some(v) => first_value(
                pairs@.map_values(|p: (String, String)| p.deep_view()),
                key@,
            ) == Some(v@),
            None => first_value(pairs@.map_values(|p: (String, String)| p.deep_view()), key@)
                is None,
        },
{
    let ghost ps = pairs@.map_values(|p: (String, String)| p.deep_view());
    let mut i: usize = 0;
    assert(ps.subrange(0, ps.len() as int) =~= ps);
    while i < pairs.len()
        invariant
            i <= pairs@.len(),
            ps == pairs@.map_values(|p: (String, String)| p.deep_view()),
            first_value(ps, key@) == first_value(ps.subrange(i as int, ps.len() as int), key@),
        decreases pairs@.len() - i,
    {
        proof {
            let rest = ps.subrange(i as int, ps.len() as int);
            assert(rest.drop_first() =~= ps.subrange(i + 1, ps.len() as int));
            assert(rest[0] == pairs@[i as int].deep_view());
        }
        if str_eq(pairs[i].0.as_str(), key) {
            return Some(pairs[i].1.as_str());
        }
        i += 1;
    }
    None
}

/// The pairs with a key, of one pair more.
proof fn lemma_pairs_with_push(
    pairs: Seq<(Seq<char>, Seq<char>)>,
    p: (Seq<char>, Seq<char>),
    key: Seq<char>,
)
    ensures
        pairs_with(pairs.push(p), key) == if p.0 == key {
            pairs_with(pairs, key).push(p)
        } else {
            pairs_with(pairs, key)
        },
{
    reveal(Seq::filter);
    assert(pairs.push(p).drop_last() =~= pairs);
}

/// Every value for `key`, in order.
pub fn all<'a>(pairs: &'a [(String, String)], key: &str) -> (r: Vec<&'a str>)
    ensures
        r@.map_values(|s: &str| s@) == values_of(
            pairs@.map_values(|p: (String, String)| p.deep_view()),
            key@,
        ),
{
    let ghost ps = pairs@.map_values(|p: (String, String)| p.deep_view());
    let mut out: Vec<&'a str> = Vec::new();
    let mut i: usize = 0;
    proof {
        reveal(Seq::filter);
        assert(pairs_with(ps.subrange(0, 0), key@).len() == 0);
    }
    while i < pairs.len()
        invariant
            i <= pairs@.len(),
            ps == pairs@.map_values(|p: (String, String)| p.deep_view()),
            out@.len() == pairs_with(ps.subrange(0, i as int), key@).len(),
            forall|k: int|
                0 <= k < out@.len() ==> (#[trigger] out@[k])@ == pairs_with(
                    ps.subrange(0, i as int),
                    key@,
                )[k].1,
        decreases pairs@.len() - i,
    {
        proof {
            assert(ps.subrange(0, i + 1) =~= ps.subrange(0, i as int).push(ps[i as int]));
            lemma_pairs_with_push(ps.subrange(0, i as int), ps[i as int], key@);
        }
        if str_eq(pairs[i].0.as_str(), key) {
            out.push(pairs[i].1.as_str());
        }
        i += 1;
    }
    proof {
        assert(ps.subrange(0, i as int) =~= ps);
        assert(out@.map_values(|s: &str| s@) =~= values_of(ps, key@));
    }
    out
}

/// The first value of a key is the first of its values.
pub proof fn first_is_the_first_of_all(pairs: Seq<(Seq<char>, Seq<char>)>, key: Seq<char>)
    ensures
        first_value(pairs, key) == if values_of(pairs, key).len() > 0 {
            Some(values_of(pairs, key)[0])
        } else {
            None
        },
    decreases pairs.len(),
{
    reveal(Seq::filter);
    if pairs.len() > 0 {
        let head = pairs.drop_last();
        first_is_the_first_of_all(head, key);
        assert(head.push(pairs.last()) =~= pairs);
        lemma_pairs_with_push(head, pairs.last(), key);
        lemma_first_value_push(head, pairs.last(), key);
    }
}

proof fn lemma_first_value_push(
    pairs: Seq<(Seq<char>, Seq<char>)>,
    p: (Seq<char>, Seq<char>),
    key: Seq<char>,
)
    ensures
        first_value(pairs.push(p), key) == match first_value(pairs, key) {
            Some(v) => Some(v),
            None => if p.0 == key {
                Some(p.1)
            } else {
                None
            },
        },
    decreases pairs.len(),
{
    let all = pairs.push(p);
    if pairs.len() > 0 {
        assert(all.drop_first() =~= pairs.drop_first().push(p));
        lemma_first_value_push(pairs.drop_first(), p, key);
    } else {
        assert(first_value(all.drop_first(), key) is None);
    }
}

/// Percent-decoding for a query value: `+` means space.
pub fn form_decode(s: &str) -> (r: String)
    ensures
        r@ == form_decoded(s@),
{
    percent_decode(s, true)
}

/// Percent-decoding for a path segment: `+` is literal.
///
/// Splitting the path *before* decoding, and decoding each segment separately, is
/// what stops an encoded `%2F` inside a tag from being mistaken for a path
/// separator.
pub fn path_decode(s: &str) -> (r: String)
    ensures
        r@ == path_decoded(s@),
{
    percent_decode(s, false)
}

fn percent_decode(s: &str, plus_is_space: bool) -> (r: String)
    ensures
        r@ == bytes_text(percent_decoded(encode_utf8(s@), plus_is_space)),
{
    let b = s.as_bytes();
    let mut out: Vec<u8> = Vec::new();
    let mut i: usize = 0;
    let ghost whole = percent_decoded(b@, plus_is_space);
    proof {
        assert(b@.subrange(0, b@.len() as int) =~= b@);
        assert(out@ + whole =~= whole);
    }
    while i < b.len()
        invariant
            i <= b@.len(),
            whole == percent_decoded(b@, plus_is_space),
            out@ + percent_decoded(b@.subrange(i as int, b@.len() as int), plus_is_space) == whole,
        decreases b@.len() - i,
    {
        let ghost rest = b@.subrange(i as int, b@.len() as int);
        let ghost before = out@;
        let mut taken: usize = 1;
        let mut byte: u8 = b[i];
        if byte == 0x25 && b.len() - i > 2 {
            if let Some(x) = hex_pair(b[i + 1], b[i + 2]) {
                byte = x;
                taken = 3;
            }
        } else if byte == 0x2b && plus_is_space {
            byte = 0x20;
        }
        out.push(byte);
        proof {
            if taken == 3 {
                assert(rest.subrange(3, rest.len() as int) =~= b@.subrange(
                    i + 3,
                    b@.len() as int,
                ));
            } else {
                assert(rest.drop_first() =~= b@.subrange(i + 1, b@.len() as int));
            }
            let tail = percent_decoded(b@.subrange(i + taken, b@.len() as int), plus_is_space);
            assert(percent_decoded(rest, plus_is_space) =~= seq![byte] + tail);
            assert(out@ + tail =~= before + (seq![byte] + tail));
        }
        i = i + taken;
    }
    proof {
        assert(b@.subrange(i as int, b@.len() as int) =~= Seq::<u8>::empty());
        assert(out@ =~= whole);
    }
    lossy(out.as_slice())
}

fn hex_pair(hi: u8, lo: u8) -> (r: Option<u8>)
    ensures
        r == hex_pair_value(hi, lo),
{
    match (hex_digit(hi), hex_digit(lo)) {
        (Some(a), Some(b)) => Some(16 * a + b),
        _ => None,
    }
}

fn hex_digit(c: u8) -> (r: Option<u8>)
    ensures
        match r {
            Some(v) => hex_digit_value(c) == Some(v as int) && v < 16,
            None => hex_digit_value(c) is None,
        },
{
    if 0x30 <= c && c <= 0x39 {
        Some(c - 0x30)
    } else if 0x61 <= c && c <= 0x66 {
        Some(c - 0x61 + 10)
    } else if 0x41 <= c && c <= 0x46 {
        Some(c - 0x41 + 10)
    } else {
        None
    }
}

// --- escaping ----------------------------------------------------------------

/// A byte that stands for itself in an escaped value.
pub open spec fn is_unreserved(b: u8) -> bool {
    0x41 <= b <= 0x5a || 0x61 <= b <= 0x7a || 0x30 <= b <= 0x39 || b == 0x2d || b == 0x5f || b
        == 0x2e || b == 0x7e
}

/// The digit that stands for `d`, below sixteen, in uppercase.
pub open spec fn upper_digit(d: int) -> char {
    if d < 10 {
        ('0' as int + d) as char
    } else {
        ('A' as int + (d - 10)) as char
    }
}

/// A byte as it stands in an escaped value.
pub open spec fn escaped_byte(b: u8) -> Seq<char> {
    if is_unreserved(b) {
        seq![b as char]
    } else if b == 0x20 {
        seq!['+']
    } else {
        seq!['%', upper_digit(b as int / 16), upper_digit(b as int % 16)]
    }
}

/// Bytes as they stand in an escaped value.
pub open spec fn escaped(b: Seq<u8>) -> Seq<char>
    decreases b.len(),
{
    if b.len() == 0 {
        Seq::empty()
    } else {
        escaped(b.drop_last()) + escaped_byte(b.last())
    }
}

fn upper(d: u8) -> (r: char)
    requires
        d < 16,
    ensures
        r == upper_digit(d as int),
{
    if d < 10 {
        (0x30 + d) as char
    } else {
        (0x41 + (d - 10)) as char
    }
}

/// Escape a query *value*: unreserved characters pass through, a space becomes
/// `+`, everything else becomes `%XX` with uppercase hex.
pub fn query_escape(s: &str) -> (r: String)
    ensures
        r@ == escaped(encode_utf8(s@)),
{
    let bytes = s.as_bytes();
    let mut out = String::new();
    let mut i: usize = 0;
    assert(bytes@.subrange(0, 0) =~= Seq::<u8>::empty());
    while i < bytes.len()
        invariant
            i <= bytes@.len(),
            out@ == escaped(bytes@.subrange(0, i as int)),
        decreases bytes@.len() - i,
    {
        let b: u8 = bytes[i];
        let ghost before = out@;
        if (0x41 <= b && b <= 0x5a) || (0x61 <= b && b <= 0x7a) || (0x30 <= b && b <= 0x39) || b
            == 0x2d || b == 0x5f || b == 0x2e || b == 0x7e {
            out.push(b as char);
        } else if b == 0x20 {
            out.push('+');
        } else {
            out.push('%');
            out.push(upper(b / 16));
            out.push(upper(b % 16));
        }
        proof {
            assert(bytes@.subrange(0, i + 1).drop_last() =~= bytes@.subrange(0, i as int));
            assert(out@ =~= before + escaped_byte(b));
        }
        i += 1;
    }
    assert(bytes@.subrange(0, i as int) =~= bytes@);
    out
}

/// An escaped value is plain ASCII, and holds none of the characters that mean
/// something in a query or a header.
pub proof fn escaped_values_are_plain(b: Seq<u8>)
    ensures
        is_ascii_chars(escaped(b)),
        forall|i: int|
            0 <= i < escaped(b).len() ==> (#[trigger] escaped(b)[i]) != '&' && escaped(b)[i] != '='
                && escaped(b)[i] != '>' && escaped(b)[i] != ' ' && escaped(b)[i] != '"',
    decreases b.len(),
{
    if b.len() > 0 {
        escaped_values_are_plain(b.drop_last());
        let head = escaped(b.drop_last());
        let tail = escaped_byte(b.last());
        assert forall|i: int| 0 <= i < escaped(b).len() implies '\0' <= #[trigger] escaped(b)[i]
            <= '\u{7f}' && escaped(b)[i] != '&' && escaped(b)[i] != '=' && escaped(b)[i] != '>'
            && escaped(b)[i] != ' ' && escaped(b)[i] != '"' by {
            if i < head.len() {
                assert(escaped(b)[i] == head[i]);
            } else {
                assert(escaped(b)[i] == tail[i - head.len()]);
            }
        }
    }
}

/// The bytes of an escaped byte.
proof fn lemma_escaped_byte_decodes(b: u8, rest: Seq<u8>)
    ensures
        percent_decoded(ascii_bytes(escaped_byte(b)) + rest, true) == seq![b] + percent_decoded(
            rest,
            true,
        ),
{
    let e = ascii_bytes(escaped_byte(b));
    let s = e + rest;
    if is_unreserved(b) || b == 0x20 {
        assert(s.drop_first() =~= rest);
    } else {
        let (hi, lo) = (b as int / 16, b as int % 16);
        assert(hex_digit_value(upper_digit(hi) as u8) == Some(hi));
        assert(hex_digit_value(upper_digit(lo) as u8) == Some(lo));
        assert(s[0] == 0x25 && s[1] == upper_digit(hi) as u8 && s[2] == upper_digit(lo) as u8);
        assert(s.subrange(3, s.len() as int) =~= rest);
    }
}

/// Plain characters as bytes.
pub open spec fn ascii_bytes(s: Seq<char>) -> Seq<u8> {
    Seq::new(s.len(), |i: int| s[i] as u8)
}

proof fn lemma_escaped_decodes(b: Seq<u8>, rest: Seq<u8>)
    ensures
        percent_decoded(ascii_bytes(escaped(b)) + rest, true) == b + percent_decoded(rest, true),
    decreases b.len(),
{
    if b.len() == 0 {
        assert(ascii_bytes(escaped(b)) + rest =~= rest);
        assert(b + percent_decoded(rest, true) =~= percent_decoded(rest, true));
    } else {
        let head = escaped(b.drop_last());
        let tail = escaped_byte(b.last());
        assert(ascii_bytes(escaped(b)) + rest =~= ascii_bytes(head) + (ascii_bytes(tail) + rest));
        lemma_escaped_decodes(b.drop_last(), ascii_bytes(tail) + rest);
        lemma_escaped_byte_decodes(b.last(), rest);
        assert(b.drop_last() + (seq![b.last()] + percent_decoded(rest, true)) =~= b
            + percent_decoded(rest, true));
    }
}

/// Decoding an escaped value gives the value back.
pub proof fn escaping_is_undone_by_decoding(s: Seq<char>)
    ensures
        form_decoded(escaped(encode_utf8(s))) == s,
{
    let b = encode_utf8(s);
    let e = escaped(b);
    escaped_values_are_plain(b);
    is_ascii_chars_encode_utf8(e);
    assert(encode_utf8(e) =~= ascii_bytes(e));
    lemma_escaped_decodes(b, Seq::empty());
    assert(ascii_bytes(e) + Seq::<u8>::empty() =~= ascii_bytes(e));
    assert(b + percent_decoded(Seq::empty(), true) =~= b);
    encode_utf8_valid_utf8(s);
    encode_utf8_decode_utf8(s);
}

} // verus!
