//! Content digests.
//!
//! `sha256` and `sha512` are held inline and encoded into keys as one algorithm
//! byte followed by the raw hash bytes, so a decoder learns the length from the
//! first byte.
use vstd::prelude::*;
use vstd::utf8::*;

use crate::bytes::{after, append_bytes, has_prefix, lex_lt};
use crate::error::SummError;
use crate::text::{
    chars_of, debug_quoted, debug_text, decimal, decimal_text, digit_char, find_char, first_index,
    hex, hex_encode, lemma_first_index, lemma_first_index_bounds, str_eq,
};

verus! {

pub const ALGO_SHA256: u8 = 1;

pub const ALGO_SHA512: u8 = 2;

/// The hash of some content, with the algorithm that made it.
#[derive(Debug, Clone, Copy, PartialEq, Eq, Hash, PartialOrd, Ord)]
pub enum Digest {
    Sha256([u8; 32]),
    Sha512([u8; 64]),
}

impl DeepView for Digest {
    type V = Digest;

    open spec fn deep_view(&self) -> Digest {
        *self
    }
}

/// Bytes that a digest with this algorithm byte takes inside a key.
pub fn encoded_len_of(algo: u8) -> (r: Option<usize>)
    ensures
        r == (if algo == ALGO_SHA256 {
            Some(33usize)
        } else if algo == ALGO_SHA512 {
            Some(65usize)
        } else {
            None
        }),
{
    match algo {
        ALGO_SHA256 => Some(33),
        ALGO_SHA512 => Some(65),
        _ => None,
    }
}

/// The value of a hexadecimal digit of either case.
pub open spec fn hex_value(c: char) -> Option<int> {
    if '0' <= c <= '9' {
        Some(c as int - '0' as int)
    } else if 'a' <= c <= 'f' {
        Some(c as int - 'a' as int + 10)
    } else if 'A' <= c <= 'F' {
        Some(c as int - 'A' as int + 10)
    } else {
        None
    }
}

/// The byte that two characters write in hexadecimal. A plus sign may stand in
/// place of the first digit.
pub open spec fn pair_value(a: char, b: char) -> Option<u8> {
    match (hex_value(a), hex_value(b)) {
        (Some(x), Some(y)) => Some((16 * x + y) as u8),
        (None, Some(y)) if a == '+' => Some(y as u8),
        _ => None,
    }
}

/// `hex` is `n` bytes in hexadecimal.
pub open spec fn is_hex_of(hex: Seq<char>, n: nat) -> bool {
    &&& hex.len() == 2 * n
    &&& forall|i: int| 0 <= i < n ==> pair_value(#[trigger] hex[2 * i], hex[2 * i + 1]) is Some
}

/// The bytes that `hex` writes.
pub open spec fn unhexed(hex: Seq<char>, n: nat) -> Seq<u8> {
    Seq::new(n, |i: int| pair_value(hex[2 * i], hex[2 * i + 1])->0)
}

/// What the digits `hex` of the digest `s` give: `n` bytes, or why not.
pub open spec fn hex_outcome(hex: Seq<char>, n: nat, s: Seq<char>) -> Result<
    Seq<u8>,
    Seq<char>,
> {
    let got = encode_utf8(hex).len();
    if got != 2 * n {
        Err("expected "@ + decimal(2 * n) + " hex chars, got "@ + decimal(got) + ": "@ + s)
    } else if is_hex_of(hex, n) {
        Ok(unhexed(hex, n))
    } else {
        Err("invalid hex in "@ + s + ": invalid digit found in string"@)
    }
}

/// The part of a digest's text behind its first colon.
pub open spec fn digest_digits(s: Seq<char>) -> Seq<char> {
    s.subrange(first_index(s, ':') + 1, s.len() as int)
}

/// The part of a digest's text before its first colon.
pub open spec fn digest_algorithm(s: Seq<char>) -> Seq<char> {
    s.subrange(0, first_index(s, ':'))
}

/// What the text of a digest gives: whether it is the longer hash, and its raw
/// bytes; or the words of the error.
pub open spec fn digest_outcome(s: Seq<char>) -> Result<(bool, Seq<u8>), Seq<char>> {
    if first_index(s, ':') == s.len() {
        Err("missing algorithm separator: "@ + s)
    } else if digest_algorithm(s) == "sha256"@ {
        match hex_outcome(digest_digits(s), 32, s) {
            Ok(raw) => Ok((false, raw)),
            Err(e) => Err(e),
        }
    } else if digest_algorithm(s) == "sha512"@ {
        match hex_outcome(digest_digits(s), 64, s) {
            Ok(raw) => Ok((true, raw)),
            Err(e) => Err(e),
        }
    } else {
        Err("unsupported algorithm "@ + debug_text(digest_algorithm(s)))
    }
}

/// The digest that a text is, if it is one.
pub open spec fn parsed_digest(s: Seq<char>) -> Option<Digest> {
    match digest_outcome(s) {
        Ok((long, raw)) => Some(
            choose|d: Digest| (d is Sha512) == long && #[trigger] d.raw_bytes() == raw,
        ),
        Err(_) => None,
    }
}

/// A digest with the algorithm and bytes that a text writes is what it parses to.
pub proof fn lemma_parsed_digest(s: Seq<char>, d: Digest)
    requires
        digest_outcome(s) == Ok::<(bool, Seq<u8>), Seq<char>>((d is Sha512, d.raw_bytes())),
    ensures
        parsed_digest(s) == Some(d),
{
    let x = choose|x: Digest|
        (x is Sha512) == (d is Sha512) && #[trigger] x.raw_bytes() == d.raw_bytes();
    digest_extensional(x, d);
}

impl Digest {
    /// The hash itself.
    pub open spec fn raw_bytes(self) -> Seq<u8> {
        match self {
            Digest::Sha256(b) => b@,
            Digest::Sha512(b) => b@,
        }
    }

    /// The byte that names the algorithm inside a key.
    pub open spec fn algo(self) -> u8 {
        match self {
            Digest::Sha256(_) => ALGO_SHA256,
            Digest::Sha512(_) => ALGO_SHA512,
        }
    }

    /// The digest as it stands inside a key.
    pub open spec fn encoded(self) -> Seq<u8> {
        seq![self.algo()] + self.raw_bytes()
    }

    /// The name of the algorithm.
    pub open spec fn algorithm_name(self) -> Seq<char> {
        match self {
            Digest::Sha256(_) => "sha256"@,
            Digest::Sha512(_) => "sha512"@,
        }
    }

    /// The digest as clients write it.
    pub open spec fn text(self) -> Seq<char> {
        self.algorithm_name() + seq![':'] + hex(self.raw_bytes())
    }
}

/// Reading back the two digits written for a byte gives the byte.
proof fn lemma_hex_pair(b: u8)
    ensures
        pair_value(digit_char(b as int / 16), digit_char(b as int % 16)) == Some(b),
{
}

/// Hexadecimal text is plain ASCII.
pub proof fn lemma_hex_is_ascii(bytes: Seq<u8>)
    ensures
        is_ascii_chars(hex(bytes)),
{
    assert forall|i: int| 0 <= i < hex(bytes).len() implies '\0' <= #[trigger] hex(bytes)[i]
        <= '\u{7f}' by {
        let d = if i % 2 == 0 {
            bytes[i / 2] as int / 16
        } else {
            bytes[i / 2] as int % 16
        };
        assert(0 <= d < 16);
    }
}

/// The text of a digest is lowercase letters, digits and one colon.
pub proof fn digest_text_is_plain(d: Digest, i: int)
    requires
        0 <= i < d.text().len(),
    ensures
        'a' <= d.text()[i] <= 'z' || '0' <= d.text()[i] <= '9' || d.text()[i] == ':',
        d.text().len() > 7,
{
    reveal_strlit("sha256");
    reveal_strlit("sha512");
    let raw = d.raw_bytes();
    if i >= 7 {
        let k = i - 7;
        assert(d.text()[i] == hex(raw)[k]);
        let v = if k % 2 == 0 {
            raw[k / 2] as int / 16
        } else {
            raw[k / 2] as int % 16
        };
        assert(0 <= v < 16);
        assert(hex(raw)[k] == digit_char(v));
    }
}

/// Reading a digest's own text gives the digest back.
pub proof fn digest_text_round_trips(d: Digest)
    ensures
        digest_outcome(d.text()) == Ok::<(bool, Seq<u8>), Seq<char>>(
            (d is Sha512, d.raw_bytes()),
        ),
        parsed_digest(d.text()) == Some(d),
{
    reveal_strlit("sha256");
    reveal_strlit("sha512");
    let s = d.text();
    let raw = d.raw_bytes();
    lemma_first_index(s, ':', 6);
    assert(digest_algorithm(s) =~= d.algorithm_name());
    assert(digest_digits(s) =~= hex(raw));
    assert("sha256"@[3] != "sha512"@[3]);
    lemma_hex_is_ascii(raw);
    is_ascii_chars_encode_utf8(hex(raw));
    assert forall|i: int| 0 <= i < raw.len() implies pair_value(
        #[trigger] hex(raw)[2 * i],
        hex(raw)[2 * i + 1],
    ) == Some(raw[i]) by {
        lemma_hex_pair(raw[i]);
    }
    assert(unhexed(hex(raw), raw.len()) =~= raw);
    lemma_parsed_digest(s, d);
}

/// Hashes sort as their hexadecimal text does.
pub proof fn raw_order_is_hex_order(a: Seq<u8>, b: Seq<u8>)
    ensures
        lex_lt(a, b) == lex_lt(encode_utf8(hex(a)), encode_utf8(hex(b))),
    decreases a.len(),
{
    reveal_with_fuel(lex_lt, 3);
    let (x, y) = (encode_utf8(hex(a)), encode_utf8(hex(b)));
    lemma_hex_is_ascii(a);
    lemma_hex_is_ascii(b);
    is_ascii_chars_encode_utf8(hex(a));
    is_ascii_chars_encode_utf8(hex(b));
    if a.len() > 0 && b.len() > 0 {
        assert(x[0] == hex(a)[0] as u8 && x[1] == hex(a)[1] as u8);
        assert(y[0] == hex(b)[0] as u8 && y[1] == hex(b)[1] as u8);
        if a[0] != b[0] {
            if x[0] == y[0] {
                assert(x.drop_first()[0] == x[1] && y.drop_first()[0] == y[1]);
                assert(x[1] != y[1]);
            }
        } else {
            let (ta, tb) = (a.drop_first(), b.drop_first());
            raw_order_is_hex_order(ta, tb);
            lemma_hex_is_ascii(ta);
            lemma_hex_is_ascii(tb);
            is_ascii_chars_encode_utf8(hex(ta));
            is_ascii_chars_encode_utf8(hex(tb));
            assert forall|i: int| 0 <= i < 2 * ta.len() implies encode_utf8(hex(ta))[i] == x[i
                + 2] by {
                assert(hex(ta)[i] == hex(a)[i + 2]);
            }
            assert forall|i: int| 0 <= i < 2 * tb.len() implies encode_utf8(hex(tb))[i] == y[i
                + 2] by {
                assert(hex(tb)[i] == hex(b)[i + 2]);
            }
            assert(x.drop_first().drop_first() =~= encode_utf8(hex(ta)));
            assert(y.drop_first().drop_first() =~= encode_utf8(hex(tb)));
            assert(x.drop_first()[0] == x[1] && y.drop_first()[0] == y[1]);
        }
    }
}

/// A digest is its algorithm and its raw bytes.
pub proof fn digest_extensional(a: Digest, b: Digest)
    requires
        a.algo() == b.algo(),
        a.raw_bytes() == b.raw_bytes(),
    ensures
        a == b,
{
    match (a, b) {
        (Digest::Sha256(x), Digest::Sha256(y)) => {
            assert(x =~= y);
        },
        (Digest::Sha512(x), Digest::Sha512(y)) => {
            assert(x =~= y);
        },
        _ => {},
    }
}

/// Two digests at the head of one buffer are the same digest: the first byte
/// says how many follow.
pub proof fn encoded_digest_is_self_delimiting(buf: Seq<u8>, a: Digest, b: Digest)
    requires
        has_prefix(buf, a.encoded()),
        has_prefix(buf, b.encoded()),
    ensures
        a == b,
{
    assert(buf[0] == a.encoded()[0]) by {
        assert(buf.subrange(0, a.encoded().len() as int)[0] == a.encoded()[0]);
    }
    assert(buf[0] == b.encoded()[0]) by {
        assert(buf.subrange(0, b.encoded().len() as int)[0] == b.encoded()[0]);
    }
    assert(a.encoded() == b.encoded());
    assert(a.raw_bytes() =~= after(a.encoded(), 1));
    assert(b.raw_bytes() =~= after(b.encoded(), 1));
    digest_extensional(a, b);
}

/// Equal encodings are encodings of the same digest.
pub proof fn encoded_digest_is_injective(a: Digest, b: Digest)
    requires
        a.encoded() == b.encoded(),
    ensures
        a == b,
{
    assert(a.encoded().subrange(0, a.encoded().len() as int) =~= a.encoded());
    encoded_digest_is_self_delimiting(a.encoded(), a, b);
}

impl Digest {
    pub fn algorithm(&self) -> (r: &'static str)
        ensures
            r@ == self.algorithm_name(),
    {
        match self {
            Digest::Sha256(_) => "sha256",
            Digest::Sha512(_) => "sha512",
        }
    }

    pub fn raw(&self) -> (r: &[u8])
        ensures
            r@ == self.raw_bytes(),
    {
        match self {
            Digest::Sha256(b) => b.as_slice(),
            Digest::Sha512(b) => b.as_slice(),
        }
    }

    pub fn algo_byte(&self) -> (r: u8)
        ensures
            r == self.algo(),
    {
        match self {
            Digest::Sha256(_) => ALGO_SHA256,
            Digest::Sha512(_) => ALGO_SHA512,
        }
    }

    /// Length this digest occupies inside a key.
    pub fn encoded_len(&self) -> (r: usize)
        ensures
            r == self.encoded().len(),
    {
        1 + self.raw().len()
    }

    /// Append the key form of this digest to `out`.
    pub fn encode_into(&self, out: &mut Vec<u8>)
        ensures
            final(out)@ == old(out)@ + self.encoded(),
    {
        out.push(self.algo_byte());
        append_bytes(out, self.raw());
        assert(out@ =~= old(out)@ + self.encoded());
    }

    /// Decode a digest from the head of `buf`, returning it and the number of
    /// bytes consumed.
    pub fn decode(buf: &[u8]) -> (r: Option<(Digest, usize)>)
        ensures
            match r {
                Some((d, n)) => n == d.encoded().len() && has_prefix(buf@, d.encoded()),
                None => forall|d: Digest| !has_prefix(buf@, #[trigger] d.encoded()),
            },
    {
        if buf.len() >= 33 && buf[0] == ALGO_SHA256 {
            let mut a: [u8; 32] = [0u8; 32];
            copy_bytes(&mut a, buf, 1);
            let d = Digest::Sha256(a);
            assert(buf@.subrange(0, 33) =~= d.encoded());
            return Some((d, 33));
        }
        if buf.len() >= 65 && buf[0] == ALGO_SHA512 {
            let mut a: [u8; 64] = [0u8; 64];
            copy_bytes(&mut a, buf, 1);
            let d = Digest::Sha512(a);
            assert(buf@.subrange(0, 65) =~= d.encoded());
            return Some((d, 65));
        }
        proof {
            assert forall|d: Digest| !has_prefix(buf@, #[trigger] d.encoded()) by {
                if has_prefix(buf@, d.encoded()) {
                    assert(buf@.subrange(0, d.encoded().len() as int)[0] == d.encoded()[0]);
                }
            }
        }
        None
    }

    /// The digest as clients write it: the algorithm, a colon and the hash in
    /// lowercase hexadecimal.
    pub fn to_text(&self) -> (r: String)
        ensures
            r@ == self.text(),
    {
        let mut out = self.algorithm().to_owned();
        proof {
            reveal_strlit(":");
            assert(":"@ =~= seq![':']);
        }
        out.append(":");
        out.append(hex_encode(self.raw()).as_str());
        out
    }

    /// Read a digest as clients write it. Text that is not a digest is refused,
    /// whatever it holds.
    pub fn parse(s: &str) -> (r: Result<Digest, SummError>)
        ensures
            match (r, digest_outcome(s@)) {
                (Ok(d), Ok((long, raw))) => d.raw_bytes() == raw && (d is Sha512) == long
                    && parsed_digest(s@) == Some(d),
                (Err(SummError::InvalidDigest(m)), Err(words)) => m@ == words,
                _ => false,
            },
    {
        let chars = chars_of(s);
        let i = find_char(chars.as_slice(), ':');
        if i == chars.len() {
            return Err(
                SummError::InvalidDigest("missing algorithm separator: ".to_owned().concat(s)),
            );
        }
        let algo = s.substring_char(0, i);
        let digits = s.substring_char(i + 1, chars.len());
        if str_eq(algo, "sha256") {
            let mut raw: [u8; 32] = [0u8; 32];
            match unhex(&mut raw, digits, s) {
                Ok(()) => {
                    proof {
                        lemma_parsed_digest(s@, Digest::Sha256(raw));
                    }
                    Ok(Digest::Sha256(raw))
                },
                Err(m) => Err(SummError::InvalidDigest(m)),
            }
        } else if str_eq(algo, "sha512") {
            let mut raw: [u8; 64] = [0u8; 64];
            match unhex(&mut raw, digits, s) {
                Ok(()) => {
                    proof {
                        lemma_parsed_digest(s@, Digest::Sha512(raw));
                    }
                    Ok(Digest::Sha512(raw))
                },
                Err(m) => Err(SummError::InvalidDigest(m)),
            }
        } else {
            Err(
                SummError::InvalidDigest(
                    "unsupported algorithm ".to_owned().concat(debug_quoted(algo).as_str()),
                ),
            )
        }
    }
}

/// Fill `out` with the bytes of `buf` from `from` on.
fn copy_bytes<const N: usize>(out: &mut [u8; N], buf: &[u8], from: usize)
    requires
        from + N <= buf.len(),
    ensures
        final(out)@ == buf@.subrange(from as int, from + N),
{
    let mut i: usize = 0;
    while i < N
        invariant
            i <= N,
            from + N <= buf.len(),
            forall|k: int| 0 <= k < i ==> out@[k] == buf@[from + k],
        decreases N - i,
    {
        out[i] = buf[from + i];
        i += 1;
    }
    assert(out@ =~= buf@.subrange(from as int, from + N));
}

/// The value of one hexadecimal digit.
fn hex_digit(c: char) -> (r: Option<u8>)
    ensures
        match r {
            Some(v) => hex_value(c) == Some(v as int) && v < 16,
            None => hex_value(c) is None,
        },
{
    if '0' <= c && c <= '9' {
        Some((c as u32 - '0' as u32) as u8)
    } else if 'a' <= c && c <= 'f' {
        Some((c as u32 - 'a' as u32 + 10) as u8)
    } else if 'A' <= c && c <= 'F' {
        Some((c as u32 - 'A' as u32 + 10) as u8)
    } else {
        None
    }
}

/// The byte that two characters write.
fn hex_pair(a: char, b: char) -> (r: Option<u8>)
    ensures
        r == pair_value(a, b),
{
    match (hex_digit(a), hex_digit(b)) {
        (Some(x), Some(y)) => Some(16 * x + y),
        (None, Some(y)) => if a == '+' {
            Some(y)
        } else {
            None
        },
        _ => None,
    }
}

/// Fill `out` with the bytes that `digits` writes, or say why they do not.
fn unhex<const N: usize>(out: &mut [u8; N], digits: &str, s: &str) -> (r: Result<(), String>)
    requires
        2 * N <= u64::MAX,
    ensures
        match (r, hex_outcome(digits@, N as nat, s@)) {
            (Ok(()), Ok(raw)) => final(out)@ == raw,
            (Err(m), Err(words)) => m@ == words,
            _ => false,
        },
{
    let got: usize = digits.as_bytes().len();
    if got as u64 != 2 * (N as u64) {
        let mut m = "expected ".to_owned();
        m.append(decimal_text(2 * (N as u64)).as_str());
        m.append(" hex chars, got ");
        m.append(decimal_text(got as u64).as_str());
        m.append(": ");
        m.append(s);
        return Err(m);
    }
    let chars = chars_of(digits);
    let mut ok: bool = chars.len() == got;
    let mut i: usize = 0;
    while i < N && ok
        invariant
            i <= N,
            2 * N <= u64::MAX,
            got == 2 * N,
            chars@ == digits@,
            ok ==> chars@.len() == 2 * N,
            ok ==> forall|k: int|
                0 <= k < i ==> pair_value(#[trigger] chars@[2 * k], chars@[2 * k + 1]) == Some(
                    out@[k],
                ),
            !ok ==> !is_hex_of(digits@, N as nat),
        decreases (N - i) + (if ok { 1int } else { 0int }),
    {
        match hex_pair(chars[2 * i], chars[2 * i + 1]) {
            Some(v) => {
                out[i] = v;
                i += 1;
            },
            None => {
                assert(pair_value(digits@[2 * (i as int)], digits@[2 * (i as int) + 1]) is None);
                ok = false;
            },
        }
    }
    if ok {
        assert(is_hex_of(digits@, N as nat));
        assert(out@ =~= unhexed(digits@, N as nat));
        Ok(())
    } else {
        let mut m = "invalid hex in ".to_owned();
        m.append(s);
        m.append(": invalid digit found in string");
        Err(m)
    }
}

/// Stored digits are read in either case, and nothing but a digit is read as one: a byte
/// is what its two digits write.
pub proof fn digits_are_read_in_either_case(x: int, y: int, a: char, b: char)
    requires
        0 <= x < 16,
        0 <= y < 16,
    ensures
        a as int == (if x < 10 {
            '0' as int + x
        } else {
            'a' as int + x - 10
        }) && b as int == (if y < 10 {
            '0' as int + y
        } else {
            'a' as int + y - 10
        }) ==> pair_value(a, b) == Some((16 * x + y) as u8),
        a as int == (if x < 10 {
            '0' as int + x
        } else {
            'A' as int + x - 10
        }) && b as int == (if y < 10 {
            '0' as int + y
        } else {
            'A' as int + y - 10
        }) ==> pair_value(a, b) == Some((16 * x + y) as u8),
        !('0' <= b <= '9' || 'a' <= b <= 'f' || 'A' <= b <= 'F') ==> pair_value(a, b) is None,
        !('0' <= a <= '9' || 'a' <= a <= 'f' || 'A' <= a <= 'F' || a == '+') ==> pair_value(a, b)
            is None,
{
}

/// What has no colon, another algorithm, or too few or too many digits is no digest.
pub proof fn other_texts_are_no_digests(s: Seq<char>, algorithm: Seq<char>, digits: Seq<char>)
    ensures
        !s.contains(':') ==> digest_outcome(s) is Err,
        s == algorithm + seq![':'] + digits && !algorithm.contains(':') && algorithm != "sha256"@
            && algorithm != "sha512"@ ==> digest_outcome(s) is Err,
        s == "sha256"@ + seq![':'] + digits && encode_utf8(digits).len() != 64 ==> digest_outcome(
            s,
        ) is Err,
        s == "sha512"@ + seq![':'] + digits && encode_utf8(digits).len() != 128 ==> digest_outcome(
            s,
        ) is Err,
{
    reveal_strlit("sha256");
    reveal_strlit("sha512");
    assert("sha256"@[3] != "sha512"@[3]);
    lemma_first_index_bounds(s, ':');
    if s == algorithm + seq![':'] + digits && !algorithm.contains(':') {
        lemma_parts(s, algorithm, digits);
    }
    if s == "sha256"@ + seq![':'] + digits {
        lemma_parts(s, "sha256"@, digits);
    }
    if s == "sha512"@ + seq![':'] + digits {
        lemma_parts(s, "sha512"@, digits);
    }
}

proof fn lemma_parts(s: Seq<char>, algorithm: Seq<char>, digits: Seq<char>)
    requires
        s == algorithm + seq![':'] + digits,
        !algorithm.contains(':'),
    ensures
        digest_algorithm(s) == algorithm,
        digest_digits(s) == digits,
        first_index(s, ':') < s.len(),
{
    let n = algorithm.len() as int;
    assert forall|k: int| 0 <= k < n implies s[k] != ':' by {
        assert(s[k] == algorithm[k]);
        if algorithm[k] == ':' {
            assert(algorithm.contains(':'));
        }
    }
    lemma_first_index(s, ':', n);
    assert(digest_algorithm(s) =~= algorithm);
    assert(digest_digits(s) =~= digits);
}

} // verus!
