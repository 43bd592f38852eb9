//! The two range grammars, kept in one file so the contrast is impossible to
//! miss.
//!
//! | Where | Header | Example |
//! |---|---|---|
//! | Blob **download** | `Range` / `Content-Range` | `bytes 500-1499/2048` |
//! | Blob **upload**, chunked | `Content-Range` | `0-1023` |
//!
//! The upload form has **no `bytes ` prefix and no `/total` suffix**, is inclusive
//! on both ends, and is anchored: digits, a dash and digits, with nothing around
//! them. Because the two are so nearly identical, each parser explicitly rejects the
//! other's syntax rather than tolerating it.
use vstd::prelude::*;

use crate::text::{
    decimal, decimal_text, find_char, first_index, is_decimal, lemma_first_index_bounds, parse_u64,
    parsed_unsigned, strip_prefix, text_of, trim, trimmed, chars_of,
};

verus! {

/// A resolved window into a blob, inclusive at both ends.
#[derive(Debug, Clone, Copy, PartialEq, Eq, Structural)]
pub struct ByteRange {
    pub start: u64,
    pub end: u64,
}

impl ByteRange {
    /// Bytes covered. Named `size` rather than `len` because the range is
    /// inclusive at both ends and can never be empty.
    pub fn size(&self) -> (r: u64)
        requires
            self.start <= self.end,
            self.end - self.start < u64::MAX,
        ensures
            r == self.end - self.start + 1,
    {
        self.end - self.start + 1
    }
}

/// What a `Range` header on a blob `GET` resolves to against a known length.
#[derive(Debug, Clone, Copy, PartialEq, Eq, Structural)]
pub enum RangeOutcome {
    /// No usable range: serve the whole blob with `200`.
    Whole,
    /// Serve `206` with this window.
    Partial(ByteRange),
    /// Serve `416` with `Content-Range: bytes */<len>`.
    Unsatisfiable,
}

/// A number of 64 bits.
pub open spec fn number(s: Seq<char>) -> Option<nat> {
    parsed_unsigned(s, u64::MAX as nat)
}

/// The text has this prefix.
pub open spec fn begins(s: Seq<char>, p: Seq<char>) -> bool {
    p.len() <= s.len() && s.subrange(0, p.len() as int) == p
}

/// The one range that a `Range` header asks for, before and behind its dash;
/// `None` where it does not ask for one range of bytes.
pub open spec fn asked(header: Seq<char>) -> Option<(Seq<char>, Seq<char>)> {
    let h = trimmed(header);
    let spec_text = trimmed(h.subrange(6, h.len() as int));
    let dash = first_index(spec_text, '-');
    if !begins(h, "bytes="@) || spec_text.contains(',') || dash == spec_text.len() {
        None
    } else {
        Some(
            (
                trimmed(spec_text.subrange(0, dash)),
                trimmed(spec_text.subrange(dash + 1, spec_text.len() as int)),
            ),
        )
    }
}

/// What a range asked for comes to against a length.
pub open spec fn range_outcome(header: Seq<char>, len: u64) -> RangeOutcome {
    match asked(header) {
        None => RangeOutcome::Whole,
        Some((first, last)) => if len == 0 {
            RangeOutcome::Unsatisfiable
        } else if first.len() == 0 && last.len() == 0 {
            RangeOutcome::Whole
        } else if first.len() == 0 {
            match number(last) {
                None => RangeOutcome::Whole,
                Some(n) => if n == 0 {
                    RangeOutcome::Unsatisfiable
                } else {
                    RangeOutcome::Partial(
                        (ByteRange {
                            start: if n < len {
                                (len - n) as u64
                            } else {
                                0
                            },
                            end: (len - 1) as u64,
                        }),
                    )
                },
            }
        } else if last.len() == 0 {
            match number(first) {
                None => RangeOutcome::Whole,
                Some(start) => if start >= len {
                    RangeOutcome::Unsatisfiable
                } else {
                    RangeOutcome::Partial(
                        (ByteRange { start: start as u64, end: (len - 1) as u64 }),
                    )
                },
            }
        } else {
            match (number(first), number(last)) {
                (Some(start), Some(end)) => if start >= len || start > end {
                    RangeOutcome::Unsatisfiable
                } else {
                    RangeOutcome::Partial(
                        (ByteRange {
                            start: start as u64,
                            end: if end < len {
                                end as u64
                            } else {
                                (len - 1) as u64
                            },
                        }),
                    )
                },
                _ => RangeOutcome::Whole,
            }
        },
    }
}

/// A window that is served lies inside the blob.
pub proof fn windows_lie_inside_the_blob(header: Seq<char>, len: u64)
    ensures
        range_outcome(header, len) matches RangeOutcome::Partial(w) ==> w.start <= w.end < len,
{
}

/// Parse a `Range` header for a blob of `len` bytes.
///
/// | Request, of 2048 bytes | Result |
/// |---|---|
/// | `bytes=500-1499` | `206`, 1000 bytes |
/// | `bytes=500-` | `206`, to EOF |
/// | `bytes=-500` | `206`, last 500 bytes |
/// | `bytes=2000-5000` | `206`, end clamped to EOF |
/// | `bytes=500-0` | `416` |
/// | `bytes=5000-10000` | `416` |
///
/// A request for several ranges is ignored, which is strictly better than
/// answering the first only: a wrong `206` is a corrupt pull.
pub fn parse_range(header: &str, len: u64) -> (r: RangeOutcome)
    ensures
        r == range_outcome(header@, len),
{
    let chars = chars_of(header);
    proof {
        reveal_strlit("bytes=");
    }
    let h = trim(chars.as_slice());
    let rest = match strip_prefix(h, "bytes=") {
        Some(rest) => rest,
        None => return RangeOutcome::Whole,
    };
    proof {
        assert(h@.subrange(0, 6) =~= "bytes="@);
        assert(rest@ =~= h@.subrange(6, h@.len() as int));
    }
    let range = trim(rest);
    proof {
        lemma_first_index_bounds(range@, ',');
        lemma_first_index_bounds(range@, '-');
    }
    if find_char(range, ',') < range.len() {
        return RangeOutcome::Whole;
    }
    let dash: usize = find_char(range, '-');
    if dash == range.len() {
        return RangeOutcome::Whole;
    }
    let first = trim(vstd::slice::slice_subrange(range, 0, dash));
    let last = trim(vstd::slice::slice_subrange(range, dash + 1, range.len()));
    // A zero-length blob can satisfy no range at all.
    if len == 0 {
        return RangeOutcome::Unsatisfiable;
    }
    if first.len() == 0 && last.len() == 0 {
        RangeOutcome::Whole
    } else if first.len() == 0 {
        // `-N`: the final N bytes.
        match parse_u64(last) {
            Some(0) => RangeOutcome::Unsatisfiable,
            Some(suffix) => RangeOutcome::Partial(
                ByteRange { start: len.saturating_sub(suffix), end: len - 1 },
            ),
            None => RangeOutcome::Whole,
        }
    } else if last.len() == 0 {
        // `N-`: from N to EOF.
        match parse_u64(first) {
            Some(start) => if start >= len {
                RangeOutcome::Unsatisfiable
            } else {
                RangeOutcome::Partial(ByteRange { start, end: len - 1 })
            },
            None => RangeOutcome::Whole,
        }
    } else {
        // `A-B`: end clamped to EOF, start beyond EOF is unsatisfiable.
        match (parse_u64(first), parse_u64(last)) {
            (Some(start), Some(end)) => {
                if start >= len || start > end {
                    RangeOutcome::Unsatisfiable
                } else {
                    RangeOutcome::Partial(
                        ByteRange {
                            start,
                            end: if end < len - 1 {
                                end
                            } else {
                                len - 1
                            },
                        },
                    )
                }
            },
            _ => RangeOutcome::Whole,
        }
    }
}

/// Why a chunked-upload `Content-Range` was rejected.
#[derive(Debug, Clone, PartialEq, Eq)]
pub enum ChunkRangeError {
    /// Not `<start>-<end>`. Covers the common mistake of sending the download
    /// form.
    Malformed(String),
    /// `start > end`.
    Inverted,
}

/// A letter of ASCII.
pub open spec fn is_letter(c: char) -> bool {
    'a' <= c <= 'z' || 'A' <= c <= 'Z'
}

/// One or more decimal digits.
pub open spec fn all_digits(s: Seq<char>) -> bool {
    s.len() > 0 && forall|i: int| 0 <= i < s.len() ==> is_decimal(#[trigger] s[i])
}

/// What a chunk's `Content-Range` says; or the words of the objection, none where
/// it is that the range runs backwards.
pub open spec fn chunk_range(value: Seq<char>) -> Result<ByteRange, Option<Seq<char>>> {
    let dash = first_index(value, '-');
    let first = value.subrange(0, dash);
    let last = value.subrange(dash + 1, value.len() as int);
    if value.contains('/') || exists|i: int|
        0 <= i < value.len() && is_letter(#[trigger] value[i]) {
        Err(
            Some(
                "chunked upload Content-Range is `<start>-<end>`, not RFC 9110 form: "@ + value,
            ),
        )
    } else if dash == value.len() || !all_digits(first) || !all_digits(last) || number(first) is None
        || number(last) is None {
        Err(Some(value))
    } else if number(first)->0 > number(last)->0 {
        Err(None)
    } else {
        Ok((ByteRange { start: number(first)->0 as u64, end: number(last)->0 as u64 }))
    }
}

/// The objection of an error, none where the range runs backwards.
pub open spec fn objection(e: ChunkRangeError) -> Option<Seq<char>> {
    match e {
        ChunkRangeError::Malformed(m) => Some(m@),
        ChunkRangeError::Inverted => None,
    }
}

/// A run of digits is a number, unless it is too large.
fn digits_only(s: &[char]) -> (r: bool)
    ensures
        r == all_digits(s@),
{
    let mut i: usize = 0;
    while i < s.len()
        invariant
            i <= s@.len(),
            forall|k: int| 0 <= k < i ==> is_decimal(#[trigger] s@[k]),
        decreases s@.len() - i,
    {
        if !('0' <= s[i] && s[i] <= '9') {
            assert(!is_decimal(s@[i as int]));
            return false;
        }
        i += 1;
    }
    s.len() > 0
}

/// Parse the chunked-upload `Content-Range`: digits, a dash, digits, and nothing
/// before or behind them, not even a space; inclusive.
///
/// Explicitly rejects `bytes ` prefixes and `/total` suffixes so that a client
/// sending the download grammar gets a clear `400` rather than having its chunk
/// written at an offset nobody agreed on.
pub fn parse_chunk_range(value: &str) -> (r: Result<ByteRange, ChunkRangeError>)
    ensures
        match r {
            Ok(range) => chunk_range(value@) == Ok::<ByteRange, Option<Seq<char>>>(range),
            Err(e) => chunk_range(value@) == Err::<ByteRange, Option<Seq<char>>>(objection(e)),
        },
{
    let chars = chars_of(value);
    let raw = chars.as_slice();
    proof {
        lemma_first_index_bounds(raw@, '/');
        lemma_first_index_bounds(raw@, '-');
    }
    let mut foreign: bool = find_char(raw, '/') < raw.len();
    let mut i: usize = 0;
    while i < raw.len() && !foreign
        invariant
            i <= raw@.len(),
            foreign ==> raw@.contains('/') || exists|k: int|
                0 <= k < raw@.len() && is_letter(#[trigger] raw@[k]),
            !foreign ==> !raw@.contains('/') && forall|k: int|
                0 <= k < i ==> !is_letter(#[trigger] raw@[k]),
        decreases raw@.len() - i,
    {
        let c = raw[i];
        if ('a' <= c && c <= 'z') || ('A' <= c && c <= 'Z') {
            assert(is_letter(raw@[i as int]));
            foreign = true;
        }
        i += 1;
    }
    if foreign {
        let m = "chunked upload Content-Range is `<start>-<end>`, not RFC 9110 form: ".to_owned();
        return Err(ChunkRangeError::Malformed(m.concat(text_of(raw).as_str())));
    }
    let dash: usize = find_char(raw, '-');
    if dash == raw.len() {
        return Err(ChunkRangeError::Malformed(text_of(raw)));
    }
    let first = vstd::slice::slice_subrange(raw, 0, dash);
    let last = vstd::slice::slice_subrange(raw, dash + 1, raw.len());
    if !digits_only(first) || !digits_only(last) {
        return Err(ChunkRangeError::Malformed(text_of(raw)));
    }
    match (parse_u64(first), parse_u64(last)) {
        (Some(start), Some(end)) => if start > end {
            Err(ChunkRangeError::Inverted)
        } else {
            Ok(ByteRange { start, end })
        },
        _ => Err(ChunkRangeError::Malformed(text_of(raw))),
    }
}

/// The bare `Range` an upload response carries: `0-<last byte written>`.
///
/// After 1024 bytes this is `0-1023`: the value is the position of the last
/// uploaded byte. A session with nothing written yet reports `0-0`; the grammar
/// has no way to express an empty range.
pub fn upload_range_header(offset: u64) -> (r: String)
    ensures
        r@ == "0-"@ + decimal(
            if offset == 0 {
                0nat
            } else {
                (offset - 1) as nat
            },
        ),
{
    "0-".to_owned().concat(decimal_text(offset.saturating_sub(1)).as_str())
}

/// A `Range` header that asks for `first` to `last`, either of which may be empty.
pub open spec fn range_header(first: Seq<char>, last: Seq<char>) -> Seq<char> {
    "bytes="@ + first + seq!['-'] + last
}

/// A text that a number may be read from, or nothing: neither a space nor anything
/// that a range's grammar takes for itself.
spec fn is_bound(s: Seq<char>) -> bool {
    forall|i: int| 0 <= i < s.len() ==> is_decimal(#[trigger] s[i])
}

/// A header written by the grammar asks for what was written.
proof fn lemma_asked(first: Seq<char>, last: Seq<char>)
    requires
        is_bound(first),
        is_bound(last),
    ensures
        asked(range_header(first, last)) == Some((first, last)),
{
    reveal_strlit("bytes=");
    let h = range_header(first, last);
    let body = first + seq!['-'] + last;
    let dash = first.len() as int;
    assert forall|i: int| 0 <= i < h.len() implies !crate::text::is_space(#[trigger] h[i]) by {
        if 6 <= i < 6 + dash {
            assert(h[i] == first[i - 6]);
        } else if i > 6 + dash {
            assert(h[i] == last[i - 7 - dash]);
        }
    }
    crate::text::lemma_nothing_to_trim(h);
    assert(h.subrange(0, 6) =~= "bytes="@);
    assert(h.subrange(6, h.len() as int) =~= body);
    assert forall|i: int| 0 <= i < body.len() implies !crate::text::is_space(#[trigger] body[i])
        && body[i] != ',' && (i < dash ==> body[i] != '-') by {
        if i < dash {
            assert(body[i] == first[i]);
        } else if i > dash {
            assert(body[i] == last[i - dash - 1]);
        }
    }
    crate::text::lemma_nothing_to_trim(body);
    assert(body[dash] == '-');
    crate::text::lemma_first_index(body, '-', dash);
    if body.contains(',') {
        let k = choose|k: int| 0 <= k < body.len() && body[k] == ',';
        assert(body[k] != ',');
    }
    assert(body.subrange(0, dash) =~= first);
    assert(body.subrange(dash + 1, body.len() as int) =~= last);
    crate::text::lemma_nothing_to_trim(first);
    crate::text::lemma_nothing_to_trim(last);
}

/// What a number is written as is read back as the number.
proof fn lemma_bound(n: u64)
    ensures
        is_bound(decimal(n as nat)),
        decimal(n as nat).len() > 0,
        number(decimal(n as nat)) == Some(n as nat),
{
    let d = decimal(n as nat);
    crate::text::lemma_decimal_reads_back(n as nat);
    assert(is_decimal(d[0]));
    assert(crate::text::unsigned_digits(d) == d);
}

/// `bytes=a-b` of a blob is the window that starts at `a` and ends at `b`, or at the
/// blob's last byte where `b` lies behind it. It cannot be satisfied where it starts
/// behind the blob, or runs backwards.
pub proof fn a_range_from_a_to_b_is_that_window(a: u64, b: u64, len: u64)
    ensures
        range_outcome(range_header(decimal(a as nat), decimal(b as nat)), len) == if a < len && a
            <= b {
            RangeOutcome::Partial(
                (ByteRange {
                    start: a,
                    end: if b < len {
                        b
                    } else {
                        (len - 1) as u64
                    },
                }),
            )
        } else {
            RangeOutcome::Unsatisfiable
        },
{
    lemma_bound(a);
    lemma_bound(b);
    lemma_asked(decimal(a as nat), decimal(b as nat));
}

/// `bytes=a-` is everything from `a` on, and cannot be satisfied where nothing is
/// there.
pub proof fn a_range_from_a_on_is_the_rest(a: u64, len: u64)
    ensures
        range_outcome(range_header(decimal(a as nat), Seq::empty()), len) == if a < len {
            RangeOutcome::Partial((ByteRange { start: a, end: (len - 1) as u64 }))
        } else {
            RangeOutcome::Unsatisfiable
        },
{
    lemma_bound(a);
    lemma_asked(decimal(a as nat), Seq::empty());
}

/// `bytes=-n` is the last `n` bytes, or all of a blob that has fewer; none at all
/// cannot be satisfied.
pub proof fn a_range_of_the_last_n_is_the_end(n: u64, len: u64)
    ensures
        range_outcome(range_header(Seq::empty(), decimal(n as nat)), len) == if n > 0 && len > 0 {
            RangeOutcome::Partial(
                (ByteRange {
                    start: if n < len {
                        (len - n) as u64
                    } else {
                        0
                    },
                    end: (len - 1) as u64,
                }),
            )
        } else {
            RangeOutcome::Unsatisfiable
        },
{
    lemma_bound(n);
    lemma_asked(Seq::empty(), decimal(n as nat));
}

/// A header that asks for another unit, or for several ranges, is not taken for one
/// range: the whole blob is served.
pub proof fn anything_else_is_the_whole_blob(header: Seq<char>, len: u64)
    requires
        ({
            let h = trimmed(header);
            ||| h.len() < 6
            ||| h.subrange(0, 6) != "bytes="@
            ||| exists|i: int| 6 <= i < h.len() && h[i] == ','
            ||| forall|i: int| 6 <= i < h.len() ==> h[i] != '-'
        }),
    ensures
        range_outcome(header, len) == RangeOutcome::Whole,
{
    reveal_strlit("bytes=");
    let h = trimmed(header);
    if begins(h, "bytes="@) {
        let rest = h.subrange(6, h.len() as int);
        let (a, b) = crate::text::trimming_takes_only_the_spaces_around(rest);
        let body = trimmed(rest);
        lemma_first_index_bounds(body, '-');
        if exists|i: int| 6 <= i < h.len() && h[i] == ',' {
            let i = choose|i: int| 6 <= i < h.len() && h[i] == ',';
            assert(rest[i - 6] == ',' && !crate::text::is_space(','));
            assert(body[i - 6 - a] == ',');
        } else {
            let dash = first_index(body, '-');
            if dash < body.len() {
                assert(body[dash] == rest[a + dash] && rest[a + dash] == h[6 + a + dash]);
            }
        }
    }
}

/// The download's grammar is not the upload's: a header that begins `bytes`, or
/// that gives a total, is never accepted as a chunk's range.
pub proof fn the_download_grammar_is_no_chunk_range(value: Seq<char>)
    requires
        begins(value, "bytes"@) || value.contains('/'),
    ensures
        chunk_range(value) matches Err(Some(_)),
{
    reveal_strlit("bytes");
    if begins(value, "bytes"@) {
        assert(value.subrange(0, 5)[0] == 'b');
        assert(is_letter(value[0]));
    }
}

/// The upload's grammar is digits, a dash and digits, from the first character to
/// the last: nothing else is accepted, and anything else is malformed.
pub proof fn a_chunk_range_is_digits_a_dash_and_digits(value: Seq<char>)
    ensures
        !(chunk_range(value) matches Err(Some(_))) ==> exists|first: Seq<char>, last: Seq<char>|
            all_digits(first) && all_digits(last) && value == #[trigger] (first + seq!['-'] + last),
{
    if !(chunk_range(value) matches Err(Some(_))) {
        lemma_first_index_bounds(value, '-');
        let dash = first_index(value, '-');
        let first = value.subrange(0, dash);
        let last = value.subrange(dash + 1, value.len() as int);
        assert(value =~= first + seq!['-'] + last);
    }
}

/// A range of two numbers of 64 bits that does not run backwards is accepted, and
/// says those numbers.
pub proof fn digits_a_dash_and_digits_are_a_chunk_range(first: Seq<char>, last: Seq<char>)
    requires
        all_digits(first),
        all_digits(last),
        number(first) matches Some(start) && number(last) matches Some(end) && start <= end,
    ensures
        chunk_range(first + seq!['-'] + last) == Ok::<ByteRange, Option<Seq<char>>>(
            (ByteRange { start: number(first)->0 as u64, end: number(last)->0 as u64 }),
        ),
{
    let s = first + seq!['-'] + last;
    let dash = first.len() as int;
    assert forall|i: int| 0 <= i < s.len() implies !is_letter(#[trigger] s[i]) && s[i] != '/' && (i
        < dash ==> s[i] != '-') by {
        if i < dash {
            assert(s[i] == first[i]);
        } else if i > dash {
            assert(s[i] == last[i - dash - 1]);
        }
    }
    assert(s[dash] == '-');
    crate::text::lemma_first_index(s, '-', dash);
    assert(s.subrange(0, dash) =~= first);
    assert(s.subrange(dash + 1, s.len() as int) =~= last);
    if s.contains('/') {
        let k = choose|k: int| 0 <= k < s.len() && s[k] == '/';
        assert(s[k] != '/');
    }
}

/// The range an upload reports after some bytes, taken as a chunk's range, ends at
/// the last of them.
pub proof fn reported_ranges_read_back(offset: u64)
    requires
        offset > 0,
    ensures
        chunk_range("0-"@ + decimal((offset - 1) as nat)) == Ok::<ByteRange, Option<Seq<char>>>(
            (ByteRange { start: 0, end: (offset - 1) as u64 }),
        ),
{
    reveal_strlit("0-");
    let n = (offset - 1) as nat;
    let d = decimal(n);
    let s = "0-"@ + d;
    crate::text::lemma_decimal_reads_back(n);
    let first = seq!['0'];
    assert(s =~= first + seq!['-'] + d);
    assert(first.drop_last() =~= Seq::<char>::empty());
    assert(crate::text::decimal_value(first) == 0) by {
        reveal_with_fuel(crate::text::decimal_value, 2);
    }
    assert(crate::text::unsigned_digits(first) == first);
    assert(number(first) == Some(0nat));
    assert(d[0] != '+');
    assert(crate::text::unsigned_digits(d) == d);
    assert(number(d) == Some(n));
    digits_a_dash_and_digits_are_a_chunk_range(first, d);
}

} // verus!
