//! `?n=` and `?last=`, and the `Link` header.
use vstd::prelude::*;
use vstd::utf8::*;

use crate::server::config::ServerConfig;
use crate::server::error::{failure_about, ApiError, ErrorCode, Failure};
use crate::server::http::{checked_header, is_header_text};
use crate::server::query::{
    escaped, escaped_values_are_plain, escaping_is_undone_by_decoding, first, first_value,
    form_decoded, lemma_undecoded, pair_of, pairs_of, query_escape, query_parts,
};
use crate::text::{
    chars_of, decimal, decimal_text, is_decimal, lemma_decimal_reads_back, lemma_first_index,
    lemma_first_index_bounds, lemma_split_at, parse_u64, parsed_unsigned, split, unsigned_digits,
};

verus! {

/// A validated page request.
#[derive(Debug, Clone, PartialEq, Eq)]
pub struct PageParams {
    /// How many results to return, already clamped to
    /// [`ServerConfig::max_page_size`].
    pub limit: usize,
    /// Exclusive cursor: results begin strictly after this value.
    pub last: Option<String>,
    /// `?n=0` was sent explicitly. Such a request is answered with an empty list
    /// and never with a `Link`, however much there is.
    pub explicit_zero: bool,
}

/// What a page request asks.
pub struct Paging {
    pub limit: int,
    pub last: Option<Seq<char>>,
    pub explicit_zero: bool,
}

impl DeepView for PageParams {
    type V = Paging;

    open spec fn deep_view(&self) -> Paging {
        Paging {
            limit: self.limit as int,
            last: self.last.deep_view(),
            explicit_zero: self.explicit_zero,
        }
    }
}

/// The smaller of two numbers.
pub open spec fn least(a: int, b: int) -> int {
    if a <= b {
        a
    } else {
        b
    }
}

/// The cursor that a query names: an empty one is none.
pub open spec fn cursor(pairs: Seq<(Seq<char>, Seq<char>)>) -> Option<Seq<char>> {
    match first_value(pairs, "last"@) {
        Some(last) => if last.len() > 0 {
            Some(last)
        } else {
            None
        },
        None => None,
    }
}

/// The page that a query asks for, or the refusal.
pub open spec fn paging(pairs: Seq<(Seq<char>, Seq<char>)>, config: ServerConfig) -> Result<
    Paging,
    Failure,
> {
    match first_value(pairs, "n"@) {
        None => Ok(
            Paging {
                limit: config.default_page_size as int,
                last: cursor(pairs),
                explicit_zero: false,
            },
        ),
        Some(value) => match parsed_unsigned(value, u64::MAX as nat) {
            None => Err(failure_about(ErrorCode::PaginationNumberInvalid, "n="@ + value)),
            Some(n) => Ok(
                Paging {
                    limit: least(n as int, config.max_page_size as int),
                    last: cursor(pairs),
                    explicit_zero: n == 0,
                },
            ),
        },
    }
}

/// The cursor of a query, if it has one.
pub fn last_of(pairs: &[(String, String)]) -> (r: Option<String>)
    ensures
        r.deep_view() == cursor(pairs@.map_values(|p: (String, String)| p.deep_view())),
{
    match first(pairs, "last") {
        Some(last) => {
            if chars_of(last).len() > 0 {
                Some(last.to_owned())
            } else {
                None
            }
        },
        None => None,
    }
}

/// Parse `?n=` and `?last=`.
///
/// An `n` that is not a number is refused. An `n` above the configured ceiling is
/// clamped, not rejected.
pub fn parse(pairs: &[(String, String)], config: &ServerConfig) -> (r: Result<PageParams, ApiError>)
    ensures
        match r {
            Ok(p) => paging(pairs@.map_values(|p: (String, String)| p.deep_view()), *config) == Ok::<
                Paging,
                Failure,
            >(p.deep_view()),
            Err(e) => paging(pairs@.map_values(|p: (String, String)| p.deep_view()), *config)
                == Err::<Paging, Failure>(e.deep_view()),
        },
{
    let limit: usize;
    let explicit_zero: bool;
    match first(pairs, "n") {
        None => {
            limit = config.default_page_size;
            explicit_zero = false;
        },
        Some(value) => {
            let chars = chars_of(value);
            match parse_u64(chars.as_slice()) {
                None => {
                    return Err(
                        ApiError::new(ErrorCode::PaginationNumberInvalid).with_detail(
                            "n=".to_owned().concat(value).as_str(),
                        ),
                    );
                },
                Some(n) => {
                    limit = if n <= config.max_page_size as u64 {
                        n as usize
                    } else {
                        config.max_page_size
                    };
                    explicit_zero = n == 0;
                },
            }
        },
    }
    Ok(PageParams { limit, last: last_of(pairs), explicit_zero })
}

/// The text that points at the next page of `path`.
pub open spec fn link_text(path: Seq<char>, last: Seq<char>, n: nat) -> Seq<char> {
    "<"@ + path + "?last="@ + escaped(encode_utf8(last)) + "&n="@ + decimal(n) + ">; rel=\"next\""@
}

/// Build `Link: <path?last=..&n=..>; rel="next"`.
///
/// A path-only URL in angle brackets, the query rebuilt with only `last` and `n`,
/// in that order. Callers emit it only when a further page exists.
pub fn link_next(path: &str, last: &str, n: usize) -> (r: Option<String>)
    ensures
        r.deep_view() == if is_header_text(link_text(path@, last@, n as nat)) {
            Some(link_text(path@, last@, n as nat))
        } else {
            None
        },
{
    let mut value = "<".to_owned();
    value.append(path);
    value.append("?last=");
    value.append(query_escape(last).as_str());
    value.append("&n=");
    value.append(decimal_text(n as u64).as_str());
    value.append(">; rel=\"next\"");
    checked_header(value)
}

/// A page is never larger than the configured ceiling, unless nothing was asked
/// and the default is.
pub proof fn pages_are_bounded(pairs: Seq<(Seq<char>, Seq<char>)>, config: ServerConfig)
    requires
        paging(pairs, config) is Ok,
        config.default_page_size <= config.max_page_size,
    ensures
        (paging(pairs, config)->Ok_0).limit <= config.max_page_size,
        (paging(pairs, config)->Ok_0).explicit_zero ==> (paging(pairs, config)->Ok_0).limit == 0,
{
}

/// The query that a link to the next page carries.
pub open spec fn link_query(last: Seq<char>, n: nat) -> Seq<char> {
    "last="@ + escaped(encode_utf8(last)) + "&n="@ + decimal(n)
}

proof fn lemma_plain_form(s: Seq<char>)
    requires
        forall|i: int|
            0 <= i < s.len() ==> '\0' <= (#[trigger] s[i]) <= '\u{7f}' && s[i] != '%' && s[i] != '+',
    ensures
        form_decoded(s) == s,
{
    is_ascii_chars_encode_utf8(s);
    let b = encode_utf8(s);
    assert forall|i: int| 0 <= i < b.len() implies #[trigger] b[i] != 0x25 && b[i] != 0x2b by {
        assert(s[i] != '%' && s[i] != '+');
        assert(s[i] as u8 == b[i]);
    }
    lemma_undecoded(b, true);
    encode_utf8_valid_utf8(s);
    encode_utf8_decode_utf8(s);
}

proof fn lemma_unsplit(s: Seq<char>, c: char)
    requires
        forall|i: int| 0 <= i < s.len() ==> #[trigger] s[i] != c,
    ensures
        split(s, c) == seq![s],
{
    lemma_first_index_bounds(s, c);
}

proof fn lemma_pair(key: Seq<char>, value: Seq<char>)
    requires
        forall|i: int|
            0 <= i < key.len() ==> '\0' <= (#[trigger] key[i]) <= '\u{7f}' && key[i] != '%' && key[i]
                != '+' && key[i] != '=',
    ensures
        pair_of(key + seq!['='] + value) == (key, form_decoded(value)),
{
    let part = key + seq!['='] + value;
    let n = key.len() as int;
    assert forall|k: int| 0 <= k < n implies part[k] != '=' by {
        assert(part[k] == key[k]);
    }
    lemma_first_index(part, '=', n);
    assert(part.subrange(0, n) =~= key);
    assert(part.subrange(n + 1, part.len() as int) =~= value);
    lemma_plain_form(key);
}

proof fn lemma_parts(first: Seq<char>, second: Seq<char>)
    requires
        first.len() > 0,
        second.len() > 0,
        forall|i: int| 0 <= i < first.len() ==> #[trigger] first[i] != '&',
        forall|i: int| 0 <= i < second.len() ==> #[trigger] second[i] != '&',
    ensures
        query_parts(first + seq!['&'] + second) == seq![first, second],
{
    lemma_split_at(first, second, '&');
    lemma_unsplit(first, '&');
    lemma_unsplit(second, '&');
    let parts = split(first + seq!['&'] + second, '&');
    assert(parts =~= seq![first, second]);
    reveal(Seq::filter);
    assert(parts.drop_last() =~= seq![first]);
    assert(seq![first].drop_last() =~= Seq::<Seq<char>>::empty());
    assert(query_parts(first + seq!['&'] + second) =~= seq![first, second]);
}

proof fn lemma_link_pairs(last: Seq<char>, n: nat)
    ensures
        pairs_of(link_query(last, n)) == seq![("last"@, last), ("n"@, decimal(n))],
{
    let e = escaped(encode_utf8(last));
    let d = decimal(n);
    let first = "last"@ + seq!['='] + e;
    let second = "n"@ + seq!['='] + d;
    reveal_strlit("last");
    reveal_strlit("n");
    assert(link_query(last, n) == first + seq!['&'] + second) by {
        reveal_strlit("last=");
        reveal_strlit("&n=");
        assert(link_query(last, n) =~= first + seq!['&'] + second);
    }
    assert(forall|i: int| 0 <= i < first.len() ==> #[trigger] first[i] != '&') by {
        escaped_values_are_plain(encode_utf8(last));
        assert forall|i: int| 0 <= i < first.len() implies #[trigger] first[i] != '&' by {
            if i >= 5 {
                assert(first[i] == e[i - 5]);
            }
        }
    }
    lemma_decimal_reads_back(n);
    assert forall|i: int| 0 <= i < second.len() implies #[trigger] second[i] != '&' by {
        if i >= 2 {
            assert(second[i] == d[i - 2]);
            assert(is_decimal(d[i - 2]));
        }
    }
    lemma_parts(first, second);
    lemma_pair("last"@, e);
    lemma_pair("n"@, d);
    assert forall|i: int| 0 <= i < d.len() implies '\0' <= (#[trigger] d[i]) <= '\u{7f}' && d[i] != '%'
        && d[i] != '+' by {
        assert(is_decimal(d[i]));
    }
    lemma_plain_form(d);
    escaping_is_undone_by_decoding(last);
    assert(pairs_of(link_query(last, n)) =~= seq![("last"@, last), ("n"@, d)]);
}

/// Following a link asks for the page after the item it names, of the same size.
pub proof fn a_link_asks_for_the_next_page(last: Seq<char>, n: usize, config: ServerConfig)
    requires
        last.len() > 0,
        n <= config.max_page_size,
    ensures
        paging(pairs_of(link_query(last, n as nat)), config) == Ok::<Paging, Failure>(
            Paging { limit: n as int, last: Some(last), explicit_zero: n == 0 },
        ),
{
    let pairs = seq![("last"@, last), ("n"@, decimal(n as nat))];
    lemma_link_pairs(last, n as nat);
    lemma_decimal_reads_back(n as nat);
    reveal_strlit("last");
    reveal_strlit("n");
    assert("last"@ != "n"@) by {
        assert("last"@.len() != "n"@.len());
    }
    reveal_with_fuel(first_value, 3);
    assert(pairs.drop_first() =~= seq![("n"@, decimal(n as nat))]);
    let d = decimal(n as nat);
    assert(is_decimal(d[0]));
    assert(unsigned_digits(d) == d);
}

/// A link is its path, that query, and nothing else.
pub proof fn a_link_is_a_path_and_its_query(path: Seq<char>, last: Seq<char>, n: nat)
    ensures
        link_text(path, last, n) == "<"@ + path + "?"@ + link_query(last, n) + ">; rel=\"next\""@,
{
    reveal_strlit("?last=");
    reveal_strlit("?");
    reveal_strlit("last=");
    assert("?last="@ =~= "?"@ + "last="@);
    assert(link_text(path, last, n) =~= "<"@ + path + "?"@ + link_query(last, n)
        + ">; rel=\"next\""@);
}

} // verus!
