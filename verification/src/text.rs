//! Text: characters, comparison, and the digits numbers are written with.
use vstd::prelude::*;
use vstd::utf8::*;

use crate::bytes::bytes_eq;

verus! {

/// The characters of `s`.
pub fn chars_of(s: &str) -> (r: Vec<char>)
    ensures
        r@ == s@,
{
    let mut out: Vec<char> = Vec::new();
    for c in it: s.chars()
        invariant
            out@ == it.seq().subrange(0, it.index()),
            it.seq() == s@,
    {
        out.push(c);
    }
    out
}

/// Whether two texts are the same.
pub fn str_eq(a: &str, b: &str) -> (r: bool)
    ensures
        r == (a@ == b@),
{
    proof {
        encode_utf8_decode_utf8(a@);
        encode_utf8_decode_utf8(b@);
    }
    bytes_eq(a.as_bytes(), b.as_bytes())
}

/// Where `c` first stands in `s`; the length of `s` where it does not.
pub open spec fn first_index(s: Seq<char>, c: char) -> int
    decreases s.len(),
{
    if s.len() == 0 || s[0] == c {
        0
    } else {
        1 + first_index(s.drop_first(), c)
    }
}

/// Where `c` last stands in `s`; `-1` where it does not.
pub open spec fn last_index(s: Seq<char>, c: char) -> int
    decreases s.len(),
{
    if s.len() == 0 {
        -1
    } else if s.last() == c {
        s.len() - 1
    } else {
        last_index(s.drop_last(), c)
    }
}

/// The first place of `c` is the one with no `c` before it.
pub proof fn lemma_first_index(s: Seq<char>, c: char, i: int)
    requires
        0 <= i <= s.len(),
        i < s.len() ==> s[i] == c,
        forall|k: int| 0 <= k < i ==> s[k] != c,
    ensures
        first_index(s, c) == i,
    decreases s.len(),
{
    if i > 0 {
        assert forall|k: int| 0 <= k < i - 1 implies s.drop_first()[k] != c by {
            assert(s[k + 1] != c);
        }
        lemma_first_index(s.drop_first(), c, i - 1);
    }
}

/// What holds at the first place of `c`.
pub proof fn lemma_first_index_bounds(s: Seq<char>, c: char)
    ensures
        0 <= first_index(s, c) <= s.len(),
        first_index(s, c) < s.len() ==> s[first_index(s, c)] == c,
        forall|k: int| 0 <= k < first_index(s, c) ==> s[k] != c,
        first_index(s, c) == s.len() <==> !s.contains(c),
    decreases s.len(),
{
    if s.len() > 0 && s[0] != c {
        let t = s.drop_first();
        lemma_first_index_bounds(t, c);
        assert forall|k: int| 0 <= k < first_index(s, c) implies s[k] != c by {
            if k > 0 {
                assert(t[k - 1] != c);
            }
        }
        if s.contains(c) {
            let k = choose|k: int| 0 <= k < s.len() && s[k] == c;
            assert(t[k - 1] == c);
        }
    }
}

/// The last place of `c` is the one with no `c` after it.
pub proof fn lemma_last_index(s: Seq<char>, c: char, i: int)
    requires
        -1 <= i < s.len(),
        i >= 0 ==> s[i] == c,
        forall|k: int| i < k < s.len() ==> s[k] != c,
    ensures
        last_index(s, c) == i,
    decreases s.len(),
{
    if i < s.len() - 1 {
        lemma_last_index(s.drop_last(), c, i);
    }
}

/// What holds at the last place of `c`.
pub proof fn lemma_last_index_bounds(s: Seq<char>, c: char)
    ensures
        -1 <= last_index(s, c) < s.len(),
        last_index(s, c) >= 0 ==> s[last_index(s, c)] == c,
        forall|k: int| last_index(s, c) < k < s.len() ==> s[k] != c,
    decreases s.len(),
{
    if s.len() > 0 && s.last() != c {
        let t = s.drop_last();
        lemma_last_index_bounds(t, c);
        assert forall|k: int| last_index(s, c) < k < s.len() implies s[k] != c by {
            if k < s.len() - 1 {
                assert(t[k] != c);
            }
        }
    }
}

/// Where `c` first stands in `s`.
pub fn find_char(s: &[char], c: char) -> (r: usize)
    ensures
        r == first_index(s@, c),
        r <= s@.len(),
{
    let mut i: usize = 0;
    while i < s.len() && s[i] != c
        invariant
            i <= s.len(),
            forall|k: int| 0 <= k < i ==> s@[k] != c,
        decreases s.len() - i,
    {
        i += 1;
    }
    proof {
        lemma_first_index(s@, c, i as int);
    }
    i
}

/// Where `c` last stands in `s`, if anywhere.
pub fn rfind_char(s: &[char], c: char) -> (r: Option<usize>)
    ensures
        match r {
            Some(i) => i == last_index(s@, c) && i < s@.len(),
            None => last_index(s@, c) == -1,
        },
{
    let mut i: usize = s.len();
    while i > 0
        invariant
            i <= s.len(),
            forall|k: int| i <= k < s.len() ==> s@[k] != c,
        decreases i,
    {
        if s[i - 1] == c {
            proof {
                lemma_last_index(s@, c, i - 1);
            }
            return Some(i - 1);
        }
        i -= 1;
    }
    proof {
        lemma_last_index(s@, c, -1);
    }
    None
}

/// Whether two runs of characters are the same.
pub fn chars_eq(a: &[char], b: &[char]) -> (r: bool)
    ensures
        r == (a@ == b@),
{
    if a.len() != b.len() {
        return false;
    }
    let mut i: usize = 0;
    while i < a.len()
        invariant
            i <= a.len(),
            a.len() == b.len(),
            forall|k: int| 0 <= k < i ==> a@[k] == b@[k],
        decreases a.len() - i,
    {
        if a[i] != b[i] {
            return false;
        }
        i += 1;
    }
    assert(a@ =~= b@);
    true
}

/// `std::str::from_utf8`: bytes that are valid UTF-8 are the text they encode,
/// and other bytes are refused.
#[verifier::external_body]
pub(crate) fn utf8_text(bytes: &[u8]) -> (r: Option<&str>)
    ensures
        match r {
            Some(s) => encode_utf8(s@) == bytes@,
            None => !valid_utf8(bytes@),
        },
{
    std::str::from_utf8(bytes).ok()
}

/// A text in quotation marks, with what cannot stand there escaped, as the
/// standard library's debug format writes it.
pub uninterp spec fn debug_text(s: Seq<char>) -> Seq<char>;

/// `std`'s `Debug` for `str`, through `format!`. The claim is that what it
/// writes depends on the text alone.
#[verifier::external_body]
pub(crate) fn debug_quoted(s: &str) -> (r: String)
    ensures
        r@ == debug_text(s@),
{
    format!("{s:?}")
}

/// `String::push`: the text with one character more at its end.
pub assume_specification[ String::push ](s: &mut String, c: char)
    ensures
        final(s)@ == old(s)@.push(c),
;

/// The text that some characters make.
pub fn text_of(chars: &[char]) -> (r: String)
    ensures
        r@ == chars@,
{
    let mut out = String::new();
    let mut i: usize = 0;
    while i < chars.len()
        invariant
            i <= chars@.len(),
            out@ == chars@.subrange(0, i as int),
        decreases chars@.len() - i,
    {
        out.push(chars[i]);
        i += 1;
        assert(out@ =~= chars@.subrange(0, i as int));
    }
    assert(out@ =~= chars@);
    out
}

// --- cutting text up ---------------------------------------------------------

/// The parts of a text between the places where `c` stands. There is always one
/// more part than there are such places.
pub open spec fn split(s: Seq<char>, c: char) -> Seq<Seq<char>>
    decreases s.len(),
{
    let i = first_index(s, c);
    if 0 <= i < s.len() {
        seq![s.subrange(0, i)] + split(s.subrange(i + 1, s.len() as int), c)
    } else {
        seq![s]
    }
}

/// Parts put together with `c` between them.
pub open spec fn joined_by(parts: Seq<Seq<char>>, c: char) -> Seq<char>
    decreases parts.len(),
{
    if parts.len() == 0 {
        Seq::empty()
    } else if parts.len() == 1 {
        parts[0]
    } else {
        joined_by(parts.drop_last(), c) + seq![c] + parts.last()
    }
}

/// The parts of a text.
pub fn split_chars(s: &[char], c: char) -> (r: Vec<Vec<char>>)
    ensures
        r.deep_view() == split(s@, c),
{
    let mut parts: Vec<Vec<char>> = Vec::new();
    let mut from: usize = 0;
    let mut more: bool = true;
    proof {
        assert(parts.deep_view() =~= Seq::<Seq<char>>::empty());
        assert(s@.subrange(0, s@.len() as int) =~= s@);
        assert(Seq::<Seq<char>>::empty() + split(s@, c) =~= split(s@, c));
    }
    while more
        invariant
            from <= s@.len(),
            more ==> parts.deep_view() + split(s@.subrange(from as int, s@.len() as int), c)
                == split(s@, c),
            !more ==> parts.deep_view() == split(s@, c),
        decreases s@.len() - from, (if more { 1int } else { 0int }),
    {
        let rest = vstd::slice::slice_subrange(s, from, s.len());
        let i: usize = find_char(rest, c);
        let ghost before = parts.deep_view();
        let part: Vec<char> = vstd::slice::slice_to_vec(vstd::slice::slice_subrange(rest, 0, i));
        proof {
            lemma_first_index_bounds(rest@, c);
            assert(part.deep_view() =~= part@);
        }
        parts.push(part);
        assert(parts.deep_view() =~= before.push(part@));
        if i < rest.len() {
            proof {
                assert(rest@.subrange(i + 1, rest@.len() as int) =~= s@.subrange(
                    from + i + 1,
                    s@.len() as int,
                ));
                let tail = split(rest@.subrange(i + 1, rest@.len() as int), c);
                assert(before.push(part@) + tail =~= before + (seq![part@] + tail));
            }
            from = from + i + 1;
        } else {
            proof {
                assert(part@ =~= rest@);
                assert(before.push(part@) =~= before + seq![rest@]);
            }
            more = false;
        }
    }
    parts
}

/// A part of a split holds no separator, and together they make the text again.
pub proof fn splitting_is_undone_by_joining(s: Seq<char>, c: char)
    ensures
        split(s, c).len() > 0,
        joined_by(split(s, c), c) == s,
        forall|i: int| 0 <= i < split(s, c).len() ==> !(#[trigger] split(s, c)[i]).contains(c),
    decreases s.len(),
{
    let i = first_index(s, c);
    lemma_first_index_bounds(s, c);
    if i < s.len() {
        let head = s.subrange(0, i);
        let tail = s.subrange(i + 1, s.len() as int);
        splitting_is_undone_by_joining(tail, c);
        let parts = split(tail, c);
        lemma_join_front(head, parts, c);
        assert(s =~= head + seq![c] + tail);
        assert forall|k: int| 0 <= k < split(s, c).len() implies !(#[trigger] split(
            s,
            c,
        )[k]).contains(c) by {
            if k > 0 {
                assert(split(s, c)[k] == parts[k - 1]);
            } else if head.contains(c) {
                let x = choose|x: int| 0 <= x < head.len() && head[x] == c;
                assert(s[x] == c);
            }
        }
    }
}

proof fn lemma_join_front(head: Seq<char>, parts: Seq<Seq<char>>, c: char)
    requires
        parts.len() > 0,
    ensures
        joined_by(seq![head] + parts, c) == head + seq![c] + joined_by(parts, c),
    decreases parts.len(),
{
    let all = seq![head] + parts;
    if parts.len() == 1 {
        assert(all.drop_last() =~= seq![head]);
        assert(joined_by(seq![head], c) == head);
    } else {
        lemma_join_front(head, parts.drop_last(), c);
        assert(all.drop_last() =~= seq![head] + parts.drop_last());
        assert(head + seq![c] + joined_by(parts.drop_last(), c) + seq![c] + parts.last() =~= head
            + seq![c] + (joined_by(parts.drop_last(), c) + seq![c] + parts.last()));
    }
}

/// A character that separates words, in any script.
pub open spec fn is_space(c: char) -> bool {
    '\u{9}' <= c <= '\u{d}' || c == ' ' || c == '\u{85}' || c == '\u{a0}' || c == '\u{1680}'
        || '\u{2000}' <= c <= '\u{200a}' || c == '\u{2028}' || c == '\u{2029}' || c == '\u{202f}'
        || c == '\u{205f}' || c == '\u{3000}'
}

fn space(c: char) -> (r: bool)
    ensures
        r == is_space(c),
{
    ('\u{9}' <= c && c <= '\u{d}') || c == ' ' || c == '\u{85}' || c == '\u{a0}' || c == '\u{1680}'
        || ('\u{2000}' <= c && c <= '\u{200a}') || c == '\u{2028}' || c == '\u{2029}' || c
        == '\u{202f}' || c == '\u{205f}' || c == '\u{3000}'
}

/// A text without the spaces at its start.
pub open spec fn trimmed_start(s: Seq<char>) -> Seq<char>
    decreases s.len(),
{
    if s.len() > 0 && is_space(s[0]) {
        trimmed_start(s.drop_first())
    } else {
        s
    }
}

/// A text without the spaces at its end.
pub open spec fn trimmed_end(s: Seq<char>) -> Seq<char>
    decreases s.len(),
{
    if s.len() > 0 && is_space(s.last()) {
        trimmed_end(s.drop_last())
    } else {
        s
    }
}

/// A text without the spaces around it.
pub open spec fn trimmed(s: Seq<char>) -> Seq<char> {
    trimmed_end(trimmed_start(s))
}

/// The characters of a text without the spaces around it.
pub fn trim(s: &[char]) -> (r: &[char])
    ensures
        r@ == trimmed(s@),
{
    let mut from: usize = 0;
    assert(s@.subrange(0, s@.len() as int) =~= s@);
    while from < s.len() && space(s[from])
        invariant
            from <= s@.len(),
            trimmed_start(s@.subrange(from as int, s@.len() as int)) == trimmed_start(s@),
        decreases s@.len() - from,
    {
        proof {
            let t = s@.subrange(from as int, s@.len() as int);
            assert(t.drop_first() =~= s@.subrange(from + 1, s@.len() as int));
        }
        from += 1;
    }
    let ghost middle = s@.subrange(from as int, s@.len() as int);
    assert(trimmed_start(s@) == middle);
    let mut to: usize = s.len();
    while to > from && space(s[to - 1])
        invariant
            from <= to <= s@.len(),
            trimmed_end(s@.subrange(from as int, to as int)) == trimmed_end(middle),
        decreases to,
    {
        proof {
            let t = s@.subrange(from as int, to as int);
            assert(t.drop_last() =~= s@.subrange(from as int, to - 1));
        }
        to -= 1;
    }
    vstd::slice::slice_subrange(s, from, to)
}

/// Whether a run of characters begins with a text; what follows, where it does.
pub fn strip_prefix<'a>(s: &'a [char], p: &str) -> (r: Option<&'a [char]>)
    ensures
        match r {
            Some(rest) => s@ == p@ + rest@,
            None => !(p@.len() <= s@.len() && s@.subrange(0, p@.len() as int) == p@),
        },
{
    let head = chars_of(p);
    if head.len() > s.len() {
        return None;
    }
    if !chars_eq(vstd::slice::slice_subrange(s, 0, head.len()), head.as_slice()) {
        return None;
    }
    let rest = vstd::slice::slice_subrange(s, head.len(), s.len());
    assert(s@ =~= p@ + rest@);
    Some(rest)
}

/// Whether some characters are a text.
pub fn is_text(s: &[char], t: &str) -> (r: bool)
    ensures
        r == (s@ == t@),
{
    chars_eq(s, chars_of(t).as_slice())
}

// --- digits ------------------------------------------------------------

/// The digit that stands for `d`, below sixteen, in lowercase.
pub open spec fn digit_char(d: int) -> char {
    if d < 10 {
        ('0' as int + d) as char
    } else {
        ('a' as int + (d - 10)) as char
    }
}

/// `n` written in decimal, without leading zeros.
pub open spec fn decimal(n: nat) -> Seq<char>
    decreases n,
{
    if n < 10 {
        seq![digit_char(n as int)]
    } else {
        decimal(n / 10).push(digit_char((n % 10) as int))
    }
}

/// Each byte as two lowercase hexadecimal digits.
pub open spec fn hex(bytes: Seq<u8>) -> Seq<char> {
    Seq::new(
        2 * bytes.len(),
        |i: int|
            if i % 2 == 0 {
                digit_char(bytes[i / 2] as int / 16)
            } else {
                digit_char(bytes[i / 2] as int % 16)
            },
    )
}

/// The one-character text of a digit below sixteen.
pub fn digit_str(d: u8) -> (r: &'static str)
    requires
        d < 16,
    ensures
        r@ == seq![digit_char(d as int)],
{
    proof {
        reveal_strlit("0");
        reveal_strlit("1");
        reveal_strlit("2");
        reveal_strlit("3");
        reveal_strlit("4");
        reveal_strlit("5");
        reveal_strlit("6");
        reveal_strlit("7");
        reveal_strlit("8");
        reveal_strlit("9");
        reveal_strlit("a");
        reveal_strlit("b");
        reveal_strlit("c");
        reveal_strlit("d");
        reveal_strlit("e");
        reveal_strlit("f");
    }
    let r = match d {
        0 => "0",
        1 => "1",
        2 => "2",
        3 => "3",
        4 => "4",
        5 => "5",
        6 => "6",
        7 => "7",
        8 => "8",
        9 => "9",
        10 => "a",
        11 => "b",
        12 => "c",
        13 => "d",
        14 => "e",
        _ => "f",
    };
    assert(r@ =~= seq![digit_char(d as int)]);
    r
}

/// `n` in decimal.
pub fn decimal_text(n: u64) -> (r: String)
    ensures
        r@ == decimal(n as nat),
    decreases n,
{
    let last = digit_str((n % 10) as u8);
    let mut out = if n < 10 {
        String::new()
    } else {
        decimal_text(n / 10)
    };
    out.append(last);
    assert(out@ =~= decimal(n as nat));
    out
}

/// The bytes in lowercase hexadecimal.
pub fn hex_encode(bytes: &[u8]) -> (r: String)
    ensures
        r@ == hex(bytes@),
{
    let mut out = String::new();
    let mut i: usize = 0;
    while i < bytes.len()
        invariant
            i <= bytes.len(),
            out@ == hex(bytes@).subrange(0, 2 * i as int),
        decreases bytes.len() - i,
    {
        out.append(digit_str(bytes[i] / 16));
        out.append(digit_str(bytes[i] % 16));
        i += 1;
        assert(out@ =~= hex(bytes@).subrange(0, 2 * i as int));
    }
    assert(out@ =~= hex(bytes@));
    out
}

/// `c` is a decimal digit.
pub open spec fn is_decimal(c: char) -> bool {
    '0' <= c <= '9'
}

/// The number that a run of decimal digits writes.
pub open spec fn decimal_value(s: Seq<char>) -> nat
    decreases s.len(),
{
    if s.len() == 0 {
        0
    } else {
        decimal_value(s.drop_last()) * 10 + (s.last() as int - '0' as int) as nat
    }
}

/// The digits of an unsigned number: what is left after one leading `+`.
pub open spec fn unsigned_digits(s: Seq<char>) -> Seq<char> {
    if s.len() > 0 && s[0] == '+' {
        s.drop_first()
    } else {
        s
    }
}

/// The unsigned number that `s` writes, where it writes one no larger than
/// `max`: an optional `+`, then one or more decimal digits.
pub open spec fn parsed_unsigned(s: Seq<char>, max: nat) -> Option<nat> {
    let digits = unsigned_digits(s);
    if digits.len() > 0 && (forall|i: int| 0 <= i < digits.len() ==> is_decimal(#[trigger] digits[i]))
        && decimal_value(digits) <= max {
        Some(decimal_value(digits))
    } else {
        None
    }
}

/// A number only grows as digits are written behind it.
proof fn lemma_decimal_value_grows(s: Seq<char>, n: int)
    requires
        0 <= n <= s.len(),
    ensures
        decimal_value(s.subrange(0, n)) <= decimal_value(s),
    decreases s.len() - n,
{
    if n == s.len() {
        assert(s.subrange(0, n) =~= s);
    } else {
        let next = s.subrange(0, n + 1);
        assert(next.drop_last() =~= s.subrange(0, n));
        lemma_decimal_value_grows(s, n + 1);
    }
}

/// A number's own digits are decimal digits, and write it.
pub proof fn lemma_decimal_reads_back(n: nat)
    ensures
        decimal(n).len() > 0,
        forall|i: int| 0 <= i < decimal(n).len() ==> is_decimal(#[trigger] decimal(n)[i]),
        decimal_value(decimal(n)) == n,
    decreases n,
{
    if n < 10 {
        assert(decimal(n).drop_last() =~= Seq::<char>::empty());
        assert(decimal_value(Seq::<char>::empty()) == 0);
    } else {
        lemma_decimal_reads_back(n / 10);
        let d = decimal(n);
        assert(d.drop_last() =~= decimal(n / 10));
        assert forall|i: int| 0 <= i < d.len() implies is_decimal(#[trigger] d[i]) by {
            if i < d.len() - 1 {
                assert(d[i] == decimal(n / 10)[i]);
            }
        }
    }
}

/// Trimming takes the spaces around a text and nothing else: what is left is one
/// stretch of it, all that was taken is spaces, and neither end of what is left is
/// one.
pub proof fn trimming_takes_only_the_spaces_around(s: Seq<char>) -> (r: (int, int))
    ensures
        0 <= r.0 <= r.1 <= s.len(),
        trimmed(s) == s.subrange(r.0, r.1),
        forall|i: int| 0 <= i < r.0 || r.1 <= i < s.len() ==> is_space(#[trigger] s[i]),
        r.0 < r.1 ==> !is_space(s[r.0]) && !is_space(s[r.1 - 1]),
{
    let a = lemma_trimmed_start(s);
    let front = s.subrange(a, s.len() as int);
    let b = lemma_trimmed_end(front);
    assert(front.subrange(0, b) =~= s.subrange(a, a + b));
    assert forall|i: int| 0 <= i < a || a + b <= i < s.len() implies is_space(#[trigger] s[i]) by {
        if i >= a + b {
            assert(front[i - a] == s[i]);
        }
    }
    if b > 0 {
        assert(front[0] == s[a]);
        assert(front[b - 1] == s[a + b - 1]);
    }
    (a, a + b)
}

proof fn lemma_trimmed_start(s: Seq<char>) -> (a: int)
    ensures
        0 <= a <= s.len(),
        trimmed_start(s) == s.subrange(a, s.len() as int),
        forall|i: int| 0 <= i < a ==> is_space(#[trigger] s[i]),
        a < s.len() ==> !is_space(s[a]),
    decreases s.len(),
{
    if s.len() > 0 && is_space(s[0]) {
        let t = s.drop_first();
        let a = lemma_trimmed_start(t);
        assert(t.subrange(a, t.len() as int) =~= s.subrange(a + 1, s.len() as int));
        assert forall|i: int| 0 <= i < a + 1 implies is_space(#[trigger] s[i]) by {
            if i > 0 {
                assert(t[i - 1] == s[i]);
            }
        }
        a + 1
    } else {
        assert(s.subrange(0, s.len() as int) =~= s);
        0
    }
}

proof fn lemma_trimmed_end(s: Seq<char>) -> (b: int)
    ensures
        0 <= b <= s.len(),
        trimmed_end(s) == s.subrange(0, b),
        forall|i: int| b <= i < s.len() ==> is_space(#[trigger] s[i]),
        b > 0 ==> !is_space(s[b - 1]),
    decreases s.len(),
{
    if s.len() > 0 && is_space(s.last()) {
        let t = s.drop_last();
        let b = lemma_trimmed_end(t);
        assert(t.subrange(0, b) =~= s.subrange(0, b));
        assert forall|i: int| b <= i < s.len() implies is_space(#[trigger] s[i]) by {
            if i < t.len() {
                assert(t[i] == s[i]);
            }
        }
        b
    } else {
        assert(s.subrange(0, s.len() as int) =~= s);
        s.len() as int
    }
}

/// A text without spaces in it has none around it.
pub proof fn lemma_nothing_to_trim(s: Seq<char>)
    requires
        forall|i: int| 0 <= i < s.len() ==> !is_space(#[trigger] s[i]),
    ensures
        trimmed(s) == s,
{
    if s.len() > 0 {
        assert(!is_space(s[0]));
        assert(!is_space(s[s.len() - 1]));
    }
}

/// Parse an unsigned number.
pub fn parse_u64(s: &[char]) -> (r: Option<u64>)
    ensures
        match r {
            Some(n) => parsed_unsigned(s@, u64::MAX as nat) == Some(n as nat),
            None => parsed_unsigned(s@, u64::MAX as nat) is None,
        },
{
    let start: usize = if s.len() > 0 && s[0] == '+' {
        1
    } else {
        0
    };
    let digits = vstd::slice::slice_subrange(s, start, s.len());
    proof {
        assert(digits@ =~= unsigned_digits(s@));
    }
    if digits.len() == 0 {
        return None;
    }
    let mut n: u64 = 0;
    let mut i: usize = 0;
    while i < digits.len()
        invariant
            i <= digits.len(),
            digits@ == unsigned_digits(s@),
            forall|k: int| 0 <= k < i ==> is_decimal(#[trigger] digits@[k]),
            n == decimal_value(digits@.subrange(0, i as int)),
        decreases digits.len() - i,
    {
        let c = digits[i];
        if !('0' <= c && c <= '9') {
            assert(!is_decimal(digits@[i as int]));
            return None;
        }
        let d: u64 = (c as u32 - '0' as u32) as u64;
        proof {
            let head = digits@.subrange(0, i + 1);
            assert(head.drop_last() =~= digits@.subrange(0, i as int));
            lemma_decimal_value_grows(digits@, i + 1);
        }
        if n > (u64::MAX - d) / 10 {
            return None;
        }
        n = n * 10 + d;
        i += 1;
    }
    assert(digits@.subrange(0, i as int) =~= digits@);
    Some(n)
}

/// Splitting a text at one of its separators splits both sides.
pub proof fn lemma_split_at(a: Seq<char>, b: Seq<char>, c: char)
    ensures
        split(a + seq![c] + b, c) == split(a, c) + split(b, c),
    decreases a.len(),
{
    let whole = a + seq![c] + b;
    lemma_first_index_bounds(a, c);
    let i = first_index(a, c);
    assert(forall|k: int| 0 <= k < a.len() ==> whole[k] == a[k]);
    assert(whole[a.len() as int] == c);
    lemma_first_index(whole, c, i);
    assert(whole.subrange(0, i) =~= a.subrange(0, i));
    if i < a.len() {
        let rest = a.subrange(i + 1, a.len() as int);
        lemma_split_at(rest, b, c);
        assert(whole.subrange(i + 1, whole.len() as int) =~= rest + seq![c] + b);
        assert(split(whole, c) =~= split(a, c) + split(b, c));
    } else {
        assert(whole.subrange(i + 1, whole.len() as int) =~= b);
        assert(a.subrange(0, i) =~= a);
        assert(split(whole, c) =~= split(a, c) + split(b, c));
    }
}

/// A number that was written in decimal is read back, with a plus sign or without, where
/// it is no larger than what is wanted; and it is written without leading zeros.
pub proof fn numbers_read_back(n: nat, max: nat)
    ensures
        n <= max ==> parsed_unsigned(decimal(n), max) == Some(n),
        n <= max ==> parsed_unsigned(seq!['+'] + decimal(n), max) == Some(n),
        n > max ==> parsed_unsigned(decimal(n), max) is None,
        n > 0 ==> decimal(n)[0] != '0',
        n == 0 ==> decimal(n) == seq!['0'],
{
    lemma_decimal_reads_back(n);
    assert(is_decimal(decimal(n)[0]));
    assert(unsigned_digits(decimal(n)) == decimal(n));
    assert((seq!['+'] + decimal(n)).drop_first() =~= decimal(n));
    lemma_no_leading_zero(n);
}

proof fn lemma_no_leading_zero(n: nat)
    ensures
        n > 0 ==> decimal(n)[0] != '0',
    decreases n,
{
    if n >= 10 {
        lemma_no_leading_zero(n / 10);
        lemma_decimal_reads_back(n / 10);
    }
}

/// What is not a run of digits, but for one plus sign in front, is no number; nor is
/// nothing at all.
pub proof fn only_digits_are_a_number(s: Seq<char>, i: int, max: nat)
    ensures
        s.len() == 0 ==> parsed_unsigned(s, max) is None,
        0 < i < s.len() && !is_decimal(s[i]) ==> parsed_unsigned(s, max) is None,
        s.len() > 0 && !is_decimal(s[0]) && s[0] != '+' ==> parsed_unsigned(s, max) is None,
        s == seq!['+'] ==> parsed_unsigned(s, max) is None,
{
    let d = unsigned_digits(s);
    if 0 < i < s.len() && !is_decimal(s[i]) {
        if s[0] == '+' {
            assert(d[i - 1] == s[i]);
        } else {
            assert(d[i] == s[i]);
        }
    }
    if s.len() > 0 && !is_decimal(s[0]) && s[0] != '+' {
        assert(d[0] == s[0]);
    }
}

} // verus!
