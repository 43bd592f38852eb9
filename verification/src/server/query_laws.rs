//! What a query says, and that a link written here is read back as it was meant.
use vstd::prelude::*;
use vstd::utf8::*;

use crate::digest::Digest;
use crate::server::config::ServerConfig;
use crate::server::error::ErrorCode;
use crate::server::handlers::referrers::referrers_link;
use crate::server::pagination::paging;
use crate::server::query::{
    escaped, escaped_values_are_plain, escaping_is_undone_by_decoding, first_value, form_decoded,
    lemma_undecoded, pair_of, pairs_of, percent_decoded, query_parts, values_of,
};
use crate::text::{
    decimal, is_decimal, lemma_decimal_reads_back, lemma_first_index, lemma_first_index_bounds,
    lemma_split_at, numbers_read_back, parsed_unsigned, split,
};

verus! {

// --- escapes ----------------------------------------------------------------------

/// A character that is the hexadecimal digit `d`, in either case.
pub open spec fn is_digit_of(c: u8, d: int) -> bool {
    ||| 0 <= d < 10 && c == 0x30 + d
    ||| 10 <= d < 16 && c == 0x61 + d - 10
    ||| 10 <= d < 16 && c == 0x41 + d - 10
}

/// An escape is the byte that its two digits write, whatever stands behind it.
pub proof fn an_escape_is_its_byte(hi: u8, lo: u8, x: int, y: int, rest: Seq<u8>, form: bool)
    requires
        is_digit_of(hi, x),
        is_digit_of(lo, y),
    ensures
        percent_decoded(seq![0x25u8, hi, lo] + rest, form) == seq![(16 * x + y) as u8]
            + percent_decoded(rest, form),
{
    let b = seq![0x25u8, hi, lo] + rest;
    assert(b[0] == 0x25 && b[1] == hi && b[2] == lo);
    assert(b.subrange(3, b.len() as int) =~= rest);
}

/// Any other byte stays as it is, but for the plus sign, which is a space in a query and
/// itself in a path. So does the percent sign of an escape that is none.
pub proof fn other_bytes_stay(b: u8, next: u8, rest: Seq<u8>, form: bool)
    ensures
        b != 0x25 && b != 0x2b ==> percent_decoded(seq![b] + rest, form) == seq![b]
            + percent_decoded(rest, form),
        percent_decoded(seq![0x2bu8] + rest, true) == seq![0x20u8] + percent_decoded(rest, true),
        percent_decoded(seq![0x2bu8] + rest, false) == seq![0x2bu8] + percent_decoded(rest, false),
        (forall|d: int| !is_digit_of(next, d)) ==> percent_decoded(
            seq![0x25u8] + (seq![next] + rest),
            form,
        ) == seq![0x25u8] + percent_decoded(seq![next] + rest, form),
        percent_decoded(Seq::empty(), form) == Seq::<u8>::empty(),
{
    assert((seq![b] + rest).drop_first() =~= rest);
    assert((seq![0x2bu8] + rest).drop_first() =~= rest);
    if forall|d: int| !is_digit_of(next, d) {
        let whole = seq![0x25u8] + (seq![next] + rest);
        assert(whole.drop_first() =~= seq![next] + rest);
        assert(whole[1] == next);
        assert(!is_digit_of(next, next - 0x30));
        assert(!is_digit_of(next, next - 0x61 + 10));
        assert(!is_digit_of(next, next - 0x41 + 10));
    }
}

// --- pairs ------------------------------------------------------------------------

/// A query is read part by part: what stands on either side of an ampersand is read as if
/// it stood alone, and nothing between two ampersands is nothing.
#[verifier::rlimit(40)]
pub proof fn a_query_is_read_part_by_part(a: Seq<char>, b: Seq<char>)
    ensures
        pairs_of(a + seq!['&'] + b) == pairs_of(a) + pairs_of(b),
        pairs_of(Seq::empty()) == Seq::<(Seq<char>, Seq<char>)>::empty(),
{
    lemma_split_at(a, b, '&');
    let full = |p: Seq<char>| p.len() > 0;
    Seq::filter_distributes_over_add(split(a, '&'), split(b, '&'), full);
    assert(query_parts(a + seq!['&'] + b) =~= query_parts(a) + query_parts(b));
    assert(pairs_of(a + seq!['&'] + b) =~= pairs_of(a) + pairs_of(b));
    let e = Seq::<char>::empty();
    lemma_first_index_bounds(e, '&');
    assert(split(e, '&') == seq![e]);
    reveal(Seq::filter);
    let one = seq![e];
    assert(one.drop_last() =~= Seq::<Seq<char>>::empty());
    assert(!full(one.last()));
    assert(one.drop_last().filter(full).len() == 0);
    assert(one.filter(full) =~= Seq::<Seq<char>>::empty());
    assert(query_parts(e) =~= Seq::<Seq<char>>::empty());
    assert(pairs_of(e) =~= Seq::<(Seq<char>, Seq<char>)>::empty());
}

/// A key that says just what is written.
pub open spec fn is_plain_key(key: Seq<char>) -> bool {
    key.len() > 0 && forall|i: int|
        0 <= i < key.len() ==> '\0' <= (#[trigger] key[i]) <= '\u{7f}' && key[i] != '%' && key[i]
            != '+' && key[i] != '=' && key[i] != '&'
}

/// A key and an escaped value are read as that key and that value. A key alone has an
/// empty value.
#[verifier::rlimit(40)]
pub proof fn a_pair_is_its_key_and_value(key: Seq<char>, value: Seq<char>)
    requires
        is_plain_key(key),
    ensures
        pairs_of(key + seq!['='] + escaped(encode_utf8(value))) == seq![(key, value)],
        pairs_of(key) == seq![(key, Seq::<char>::empty())],
{
    let e = escaped(encode_utf8(value));
    let part = key + seq!['='] + e;
    let n = key.len() as int;
    escaped_values_are_plain(encode_utf8(value));
    escaping_is_undone_by_decoding(value);
    lemma_plain_key(key);
    assert forall|k: int| 0 <= k < part.len() implies #[trigger] part[k] != '&' by {
        if k < n {
            assert(part[k] == key[k]);
        } else if k > n {
            assert(part[k] == e[k - n - 1]);
        }
    }
    assert forall|k: int| 0 <= k < n implies part[k] != '=' by {
        assert(part[k] == key[k]);
    }
    lemma_first_index(part, '=', n);
    assert(part.subrange(0, n) =~= key);
    assert(part.subrange(n + 1, part.len() as int) =~= e);
    lemma_one_part(part);
    assert(pairs_of(part) =~= seq![(key, value)]);
    lemma_first_index(key, '=', n);
    lemma_one_part(key);
    assert(pairs_of(key) =~= seq![(key, Seq::<char>::empty())]);
}

proof fn lemma_plain_key(key: Seq<char>)
    requires
        is_plain_key(key),
    ensures
        form_decoded(key) == key,
{
    is_ascii_chars_encode_utf8(key);
    let b = encode_utf8(key);
    assert forall|i: int| 0 <= i < b.len() implies #[trigger] b[i] != 0x25 && b[i] != 0x2b by {
        assert(key[i] != '%' && key[i] != '+');
        assert(key[i] as u8 == b[i]);
    }
    lemma_undecoded(b, true);
    encode_utf8_valid_utf8(key);
    encode_utf8_decode_utf8(key);
}

proof fn lemma_one_part(part: Seq<char>)
    requires
        part.len() > 0,
        forall|k: int| 0 <= k < part.len() ==> #[trigger] part[k] != '&',
    ensures
        pairs_of(part) == seq![pair_of(part)],
{
    lemma_first_index_bounds(part, '&');
    assert(split(part, '&') == seq![part]);
    reveal(Seq::filter);
    assert(seq![part].drop_last() =~= Seq::<Seq<char>>::empty());
    assert(query_parts(part) =~= seq![part]);
    assert(pairs_of(part) =~= seq![pair_of(part)]);
}

/// The value of a key is the one that stands with it first; a key that is not there has
/// none.
pub proof fn the_first_value_counts(
    pairs: Seq<(Seq<char>, Seq<char>)>,
    key: Seq<char>,
    i: int,
)
    ensures
        0 <= i < pairs.len() && pairs[i].0 == key && (forall|k: int|
            0 <= k < i ==> (#[trigger] pairs[k]).0 != key) ==> first_value(pairs, key) == Some(
            pairs[i].1,
        ),
        (forall|k: int| 0 <= k < pairs.len() ==> (#[trigger] pairs[k]).0 != key) ==> first_value(
            pairs,
            key,
        ) is None,
    decreases pairs.len(),
{
    if pairs.len() > 0 {
        let rest = pairs.drop_first();
        assert(forall|k: int| 0 <= k < rest.len() ==> rest[k] == pairs[k + 1]);
        if pairs[0].0 != key {
            the_first_value_counts(rest, key, i - 1);
        }
    }
}

/// Every value of a key is given, in order: one pair more is one value more where the key
/// is the one asked for, and none where it is not.
pub proof fn every_value_is_given(
    pairs: Seq<(Seq<char>, Seq<char>)>,
    p: (Seq<char>, Seq<char>),
    key: Seq<char>,
)
    ensures
        values_of(Seq::empty(), key) == Seq::<Seq<char>>::empty(),
        p.0 == key ==> values_of(pairs.push(p), key) == values_of(pairs, key).push(p.1),
        p.0 != key ==> values_of(pairs.push(p), key) == values_of(pairs, key),
{
    reveal(Seq::filter);
    assert(pairs.push(p).drop_last() =~= pairs);
    assert(values_of(Seq::empty(), key) =~= Seq::<Seq<char>>::empty());
    if p.0 == key {
        assert(values_of(pairs.push(p), key) =~= values_of(pairs, key).push(p.1));
    } else {
        assert(values_of(pairs.push(p), key) =~= values_of(pairs, key));
    }
}

// --- pages ------------------------------------------------------------------------

/// A page is as large as the query asks, up to what the registry allows, and as large as
/// is usual where it does not ask. It begins behind the item that the query names. What
/// is no number is refused, and told.
pub proof fn a_page_is_as_large_as_asked(
    pairs: Seq<(Seq<char>, Seq<char>)>,
    config: ServerConfig,
    n: nat,
)
    requires
        n <= u64::MAX,
    ensures
        first_value(pairs, "n"@) is None ==> paging(pairs, config) is Ok && (paging(
            pairs,
            config,
        )->Ok_0).limit == config.default_page_size && !(paging(pairs, config)->Ok_0).explicit_zero,
        first_value(pairs, "n"@) == Some(decimal(n)) && n <= config.max_page_size ==> paging(
            pairs,
            config,
        ) is Ok && (paging(pairs, config)->Ok_0).limit == n && (paging(
            pairs,
            config,
        )->Ok_0).explicit_zero == (n == 0),
        first_value(pairs, "n"@) == Some(decimal(n)) && n > config.max_page_size ==> paging(
            pairs,
            config,
        ) is Ok && (paging(pairs, config)->Ok_0).limit == config.max_page_size && !(paging(
            pairs,
            config,
        )->Ok_0).explicit_zero,
        first_value(pairs, "n"@) is Some && parsed_unsigned(
            first_value(pairs, "n"@)->0,
            u64::MAX as nat,
        ) is None ==> paging(pairs, config) is Err && (paging(pairs, config)->Err_0).status == 400
            && (paging(pairs, config)->Err_0).body == Some(ErrorCode::PaginationNumberInvalid),
        paging(pairs, config) is Ok && first_value(pairs, "last"@) is None ==> (paging(
            pairs,
            config,
        )->Ok_0).last is None,
        paging(pairs, config) is Ok && first_value(pairs, "last"@) == Some(Seq::<char>::empty())
            ==> (paging(pairs, config)->Ok_0).last is None,
        paging(pairs, config) is Ok && (first_value(pairs, "last"@) matches Some(l) && l.len() > 0)
            ==> (paging(pairs, config)->Ok_0).last == first_value(pairs, "last"@),
{
    numbers_read_back(n, u64::MAX as nat);
}

// --- links ------------------------------------------------------------------------

/// The link to the next page of a subject's referrers asks for the same subject, with the
/// same filter, a page of the same size, behind the referrer where this one ended.
pub proof fn a_referrers_link_asks_for_the_next_page(
    name: Seq<char>,
    subject: Digest,
    kind: Option<Seq<char>>,
    last: Digest,
    n: nat,
) -> (query: Seq<char>)
    ensures
        referrers_link(name, subject, kind, last, n) == "</v2/"@ + name + "/referrers/"@
            + subject.text() + "?"@ + query + ">; rel=\"next\""@,
        first_value(pairs_of(query), "artifactType"@) == kind,
        first_value(pairs_of(query), "last"@) == Some(last.text()),
        first_value(pairs_of(query), "n"@) == Some(decimal(n)),
{
    let query = match kind {
        None => plain_page(last, n),
        Some(t) => "artifactType"@ + seq!['='] + escaped(encode_utf8(t)) + seq!['&'] + plain_page(
            last,
            n,
        ),
    };
    lemma_link_form(name, subject, kind, last, n, query);
    match kind {
        None => lemma_plain_page_says(last, n),
        Some(t) => lemma_filtered_page_says(t, last, n),
    }
    query
}

spec fn plain_page(last: Digest, n: nat) -> Seq<char> {
    "last"@ + seq!['='] + escaped(encode_utf8(last.text())) + seq!['&'] + ("n"@ + seq!['=']
        + decimal(n))
}

proof fn lemma_plain_page(last: Digest, n: nat)
    ensures
        pairs_of(plain_page(last, n)) == seq![("last"@, last.text()), ("n"@, decimal(n))],
{
    reveal_strlit("last");
    reveal_strlit("n");
    let a = "last"@ + seq!['='] + escaped(encode_utf8(last.text()));
    let b = "n"@ + seq!['='] + decimal(n);
    a_pair_is_its_key_and_value("last"@, last.text());
    lemma_number_pair("n"@, n);
    a_query_is_read_part_by_part(a, b);
    assert(pairs_of(plain_page(last, n)) =~= seq![("last"@, last.text()), ("n"@, decimal(n))]);
}

#[verifier::rlimit(40)]
proof fn lemma_plain_page_says(last: Digest, n: nat)
    ensures
        first_value(pairs_of(plain_page(last, n)), "artifactType"@) is None,
        first_value(pairs_of(plain_page(last, n)), "last"@) == Some(last.text()),
        first_value(pairs_of(plain_page(last, n)), "n"@) == Some(decimal(n)),
{
    lemma_plain_page(last, n);
    lemma_keys_differ();
    let two = seq![("last"@, last.text()), ("n"@, decimal(n))];
    assert(two[0].0 == "last"@ && two[1].0 == "n"@);
    the_first_value_counts(two, "artifactType"@, 0);
    the_first_value_counts(two, "last"@, 0);
    the_first_value_counts(two, "n"@, 1);
}

#[verifier::rlimit(40)]
proof fn lemma_filtered_page_says(t: Seq<char>, last: Digest, n: nat)
    ensures
        ({
            let query = "artifactType"@ + seq!['='] + escaped(encode_utf8(t)) + seq!['&']
                + plain_page(last, n);
            &&& first_value(pairs_of(query), "artifactType"@) == Some(t)
            &&& first_value(pairs_of(query), "last"@) == Some(last.text())
            &&& first_value(pairs_of(query), "n"@) == Some(decimal(n))
        }),
{
    lemma_plain_page_says(last, n);
    lemma_keys_differ();
    let f = "artifactType"@ + seq!['='] + escaped(encode_utf8(t));
    a_pair_is_its_key_and_value("artifactType"@, t);
    a_query_is_read_part_by_part(f, plain_page(last, n));
    let rest = pairs_of(plain_page(last, n));
    lemma_value_behind(("artifactType"@, t), rest, "artifactType"@);
    lemma_value_behind(("artifactType"@, t), rest, "last"@);
    lemma_value_behind(("artifactType"@, t), rest, "n"@);
}

proof fn lemma_value_behind(
    p: (Seq<char>, Seq<char>),
    rest: Seq<(Seq<char>, Seq<char>)>,
    key: Seq<char>,
)
    ensures
        first_value(seq![p] + rest, key) == if p.0 == key {
            Some(p.1)
        } else {
            first_value(rest, key)
        },
{
    assert((seq![p] + rest).drop_first() =~= rest);
}

proof fn lemma_keys_differ()
    ensures
        "artifactType"@ != "last"@,
        "artifactType"@ != "n"@,
        "last"@ != "n"@,
        is_plain_key("artifactType"@),
{
    reveal_strlit("artifactType");
    reveal_strlit("last");
    reveal_strlit("n");
    assert("artifactType"@.len() == 12 && "last"@.len() == 4 && "n"@.len() == 1);
}

#[verifier::rlimit(40)]
proof fn lemma_link_form(
    name: Seq<char>,
    subject: Digest,
    kind: Option<Seq<char>>,
    last: Digest,
    n: nat,
    query: Seq<char>,
)
    requires
        query == match kind {
            None => plain_page(last, n),
            Some(t) => "artifactType"@ + seq!['='] + escaped(encode_utf8(t)) + seq!['&']
                + plain_page(last, n),
        },
    ensures
        referrers_link(name, subject, kind, last, n) == "</v2/"@ + name + "/referrers/"@
            + subject.text() + "?"@ + query + ">; rel=\"next\""@,
{
    reveal_strlit("artifactType=");
    reveal_strlit("artifactType");
    reveal_strlit("last=");
    reveal_strlit("last");
    reveal_strlit("&n=");
    reveal_strlit("n");
    reveal_strlit("&");
    assert("artifactType="@ =~= "artifactType"@ + seq!['=']);
    assert("last="@ =~= "last"@ + seq!['=']);
    assert("&n="@ =~= seq!['&'] + ("n"@ + seq!['=']));
    assert("&"@ =~= seq!['&']);
    let start = "</v2/"@ + name + "/referrers/"@ + subject.text() + "?"@;
    let end = ">; rel=\"next\""@;
    let l = escaped(encode_utf8(last.text()));
    let d = decimal(n);
    lemma_tail_form(start, l, d, end);
    match kind {
        None => {},
        Some(t) => {
            let f = "artifactType"@ + seq!['='] + escaped(encode_utf8(t)) + seq!['&'];
            lemma_tail_form(start + f, l, d, end);
            assert(start + ("artifactType"@ + seq!['=']) + escaped(encode_utf8(t)) + seq!['&']
                =~= start + f);
            assert(start + f + plain_page(last, n) =~= start + (f + plain_page(last, n)));
        },
    }
}

proof fn lemma_tail_form(start: Seq<char>, l: Seq<char>, d: Seq<char>, end: Seq<char>)
    ensures
        start + ("last"@ + seq!['=']) + l + (seq!['&'] + ("n"@ + seq!['='])) + d + end == start + (
        "last"@ + seq!['='] + l + seq!['&'] + ("n"@ + seq!['='] + d)) + end,
{
    assert(start + ("last"@ + seq!['=']) + l + (seq!['&'] + ("n"@ + seq!['='])) + d + end
        =~= start + ("last"@ + seq!['='] + l + seq!['&'] + ("n"@ + seq!['='] + d)) + end);
}

/// A key and a number are read as that key and the number's digits.
#[verifier::rlimit(40)]
proof fn lemma_number_pair(key: Seq<char>, n: nat)
    requires
        is_plain_key(key),
    ensures
        pairs_of(key + seq!['='] + decimal(n)) == seq![(key, decimal(n))],
{
    let d = decimal(n);
    let part = key + seq!['='] + d;
    let k = key.len() as int;
    lemma_decimal_reads_back(n);
    assert forall|i: int| 0 <= i < part.len() implies #[trigger] part[i] != '&' by {
        if i < k {
            assert(part[i] == key[i]);
        } else if i > k {
            assert(part[i] == d[i - k - 1]);
            assert(is_decimal(d[i - k - 1]));
        }
    }
    assert forall|i: int| 0 <= i < k implies part[i] != '=' by {
        assert(part[i] == key[i]);
    }
    lemma_first_index(part, '=', k);
    assert(part.subrange(0, k) =~= key);
    assert(part.subrange(k + 1, part.len() as int) =~= d);
    lemma_plain_key(key);
    assert(is_plain_key(d)) by {
        assert forall|i: int| 0 <= i < d.len() implies '\0' <= (#[trigger] d[i]) <= '\u{7f}' && d[i]
            != '%' && d[i] != '+' && d[i] != '=' && d[i] != '&' by {
            assert(is_decimal(d[i]));
        }
    }
    lemma_plain_key(d);
    lemma_one_part(part);
    assert(pairs_of(part) =~= seq![(key, d)]);
}

} // verus!
