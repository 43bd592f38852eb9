//! A resumable streaming hasher.
//!
//! The hasher advances as bytes are written, so a blob is never read again to
//! verify it. And its state serialises: a hundred-odd bytes fit in the stored
//! session, so an interrupted upload resumes on *any* process.
//!
//! The serialised bytes are potentially sensitive. Nothing here exposes the
//! hasher itself - only [`Hasher::serialize_state`] and [`Hasher::restore`].
use sha2::digest::common::hazmat::{SerializableState, SerializedState};
use sha2::Digest as _;
use vstd::prelude::*;

use crate::digest::{digest_extensional, Digest};
use crate::error::{Result, SummError};
use crate::storage::algorithm::DigestAlgorithm;
use crate::text::{decimal, decimal_text};

verus! {

/// `sha2`'s SHA-256 hasher.
#[verifier::external_type_specification]
#[verifier::external_body]
pub struct ExSha256(sha2::Sha256);

/// `sha2`'s SHA-512 hasher.
#[verifier::external_type_specification]
#[verifier::external_body]
pub struct ExSha512(sha2::Sha512);

// --- the serialised state ------------------------------------------------

/// Bytes hashed at a time.
pub open spec fn block_len(a: DigestAlgorithm) -> nat {
    match a {
        DigestAlgorithm::Sha256 => 64,
        DigestAlgorithm::Sha512 => 128,
    }
}

/// Where the count of whole blocks stands in a serialised state.
pub open spec fn count_at(a: DigestAlgorithm) -> nat {
    match a {
        DigestAlgorithm::Sha256 => 32,
        DigestAlgorithm::Sha512 => 64,
    }
}

/// Where the bytes not yet hashed stand: first how many, then the bytes, then
/// zeros.
pub open spec fn buffer_at(a: DigestAlgorithm) -> nat {
    match a {
        DigestAlgorithm::Sha256 => 40,
        DigestAlgorithm::Sha512 => 80,
    }
}

/// Length of a serialised state.
pub open spec fn state_len(a: DigestAlgorithm) -> nat {
    match a {
        DigestAlgorithm::Sha256 => 104,
        DigestAlgorithm::Sha512 => 208,
    }
}

/// Bytes that a hasher can take in before its bit count no longer fits.
pub open spec fn capacity(a: DigestAlgorithm) -> nat {
    match a {
        DigestAlgorithm::Sha256 => (u64::MAX / 8) as nat,
        DigestAlgorithm::Sha512 => (u128::MAX / 8) as nat,
    }
}

/// The number that some bytes write, least significant first.
pub open spec fn le_value(b: Seq<u8>) -> nat
    decreases b.len(),
{
    if b.len() == 0 {
        0
    } else {
        b[0] as nat + 256 * le_value(b.drop_first())
    }
}

/// Whether some bytes are a serialised state: the right length, fewer bytes
/// waiting than make a block, and nothing but zeros behind them.
pub open spec fn is_state(a: DigestAlgorithm, state: Seq<u8>) -> bool {
    let at = buffer_at(a) as int;
    &&& state.len() == state_len(a)
    &&& state[at] < block_len(a)
    &&& forall|i: int| at + 1 + state[at] <= i < state.len() ==> #[trigger] state[i] == 0
}

/// How many bytes a state has taken in.
pub open spec fn taken_in(a: DigestAlgorithm, state: Seq<u8>) -> nat {
    let at = buffer_at(a) as int;
    block_len(a) * le_value(state.subrange(count_at(a) as int, at)) + state[at] as nat
}

/// The state before any byte: the algorithm's initial hash value, no blocks, and
/// an empty buffer.
pub open spec fn initial_state(a: DigestAlgorithm) -> Seq<u8> {
    match a {
        DigestAlgorithm::Sha256 => seq![
            0x67u8, 0xe6, 0x09, 0x6a, 0x85, 0xae, 0x67, 0xbb, 0x72, 0xf3, 0x6e, 0x3c, 0x3a, 0xf5,
            0x4f, 0xa5, 0x7f, 0x52, 0x0e, 0x51, 0x8c, 0x68, 0x05, 0x9b, 0xab, 0xd9, 0x83, 0x1f,
            0x19, 0xcd, 0xe0, 0x5b,
        ] + Seq::new(72, |i: int| 0u8),
        DigestAlgorithm::Sha512 => seq![
            0x08u8, 0xc9, 0xbc, 0xf3, 0x67, 0xe6, 0x09, 0x6a, 0x3b, 0xa7, 0xca, 0x84, 0x85, 0xae,
            0x67, 0xbb, 0x2b, 0xf8, 0x94, 0xfe, 0x72, 0xf3, 0x6e, 0x3c, 0xf1, 0x36, 0x1d, 0x5f,
            0x3a, 0xf5, 0x4f, 0xa5, 0xd1, 0x82, 0xe6, 0xad, 0x7f, 0x52, 0x0e, 0x51, 0x1f, 0x6c,
            0x3e, 0x2b, 0x8c, 0x68, 0x05, 0x9b, 0x6b, 0xbd, 0x41, 0xfb, 0xab, 0xd9, 0x83, 0x1f,
            0x79, 0x21, 0x7e, 0x13, 0x19, 0xcd, 0xe0, 0x5b,
        ] + Seq::new(144, |i: int| 0u8),
    }
}

// --- the outside hashers -----------------------------------------------------

/// The serialised state of a SHA-256 hasher.
pub uninterp spec fn sha256_state(h: sha2::Sha256) -> Seq<u8>;

/// The serialised state of a SHA-512 hasher.
pub uninterp spec fn sha512_state(h: sha2::Sha512) -> Seq<u8>;

/// The state after a SHA-256 hasher in some state takes in some bytes.
pub uninterp spec fn sha256_step(state: Seq<u8>, bytes: Seq<u8>) -> Seq<u8>;

/// The state after a SHA-512 hasher in some state takes in some bytes.
pub uninterp spec fn sha512_step(state: Seq<u8>, bytes: Seq<u8>) -> Seq<u8>;

/// The hash that a SHA-256 hasher in some state gives.
pub uninterp spec fn sha256_finish(state: Seq<u8>) -> Seq<u8>;

/// The hash that a SHA-512 hasher in some state gives.
pub uninterp spec fn sha512_finish(state: Seq<u8>) -> Seq<u8>;

/// `sha2::Sha256::new`: a hasher in SHA-256's initial state.
#[verifier::external_body]
fn new256() -> (r: sha2::Sha256)
    ensures
        sha256_state(r) == initial_state(DigestAlgorithm::Sha256),
{
    sha2::Sha256::new()
}

/// `sha2::Sha512::new`: a hasher in SHA-512's initial state.
#[verifier::external_body]
fn new512() -> (r: sha2::Sha512)
    ensures
        sha512_state(r) == initial_state(DigestAlgorithm::Sha512),
{
    sha2::Sha512::new()
}

/// `update` of `sha2::Sha256`. The new state depends on the old one and on the
/// bytes alone; it counts the bytes; and bytes taken in one after the other leave
/// the state that they leave together, no bytes leaving it as it is.
#[verifier::external_body]
fn update256(h: &mut sha2::Sha256, bytes: &[u8])
    requires
        is_state(DigestAlgorithm::Sha256, sha256_state(*old(h))),
        taken_in(DigestAlgorithm::Sha256, sha256_state(*old(h))) + bytes@.len() <= capacity(
            DigestAlgorithm::Sha256,
        ),
    ensures
        sha256_state(*final(h)) == sha256_step(sha256_state(*old(h)), bytes@),
        is_state(DigestAlgorithm::Sha256, sha256_state(*final(h))),
        taken_in(DigestAlgorithm::Sha256, sha256_state(*final(h))) == taken_in(
            DigestAlgorithm::Sha256,
            sha256_state(*old(h)),
        ) + bytes@.len(),
        bytes@.len() == 0 ==> sha256_state(*final(h)) == sha256_state(*old(h)),
        forall|s: Seq<u8>, b: Seq<u8>| #[trigger]
            sha256_step(s, b) == sha256_state(*old(h)) ==> sha256_state(*final(h)) == sha256_step(
                s,
                b + bytes@,
            ),
{
    h.update(bytes)
}

/// `update` of `sha2::Sha512`, of which the same holds as of SHA-256's.
#[verifier::external_body]
fn update512(h: &mut sha2::Sha512, bytes: &[u8])
    requires
        is_state(DigestAlgorithm::Sha512, sha512_state(*old(h))),
        taken_in(DigestAlgorithm::Sha512, sha512_state(*old(h))) + bytes@.len() <= capacity(
            DigestAlgorithm::Sha512,
        ),
    ensures
        sha512_state(*final(h)) == sha512_step(sha512_state(*old(h)), bytes@),
        is_state(DigestAlgorithm::Sha512, sha512_state(*final(h))),
        taken_in(DigestAlgorithm::Sha512, sha512_state(*final(h))) == taken_in(
            DigestAlgorithm::Sha512,
            sha512_state(*old(h)),
        ) + bytes@.len(),
        bytes@.len() == 0 ==> sha512_state(*final(h)) == sha512_state(*old(h)),
        forall|s: Seq<u8>, b: Seq<u8>| #[trigger]
            sha512_step(s, b) == sha512_state(*old(h)) ==> sha512_state(*final(h)) == sha512_step(
                s,
                b + bytes@,
            ),
{
    h.update(bytes)
}

/// `finalize` of `sha2::Sha256`. The hash depends on the state alone.
#[verifier::external_body]
fn finish256(h: sha2::Sha256) -> (r: [u8; 32])
    requires
        taken_in(DigestAlgorithm::Sha256, sha256_state(h)) <= capacity(DigestAlgorithm::Sha256),
    ensures
        r@ == sha256_finish(sha256_state(h)),
{
    h.finalize().into()
}

/// `finalize` of `sha2::Sha512`. The hash depends on the state alone.
#[verifier::external_body]
fn finish512(h: sha2::Sha512) -> (r: [u8; 64])
    requires
        taken_in(DigestAlgorithm::Sha512, sha512_state(h)) <= capacity(DigestAlgorithm::Sha512),
    ensures
        r@ == sha512_finish(sha512_state(h)),
{
    h.finalize().into()
}

/// `serialize` of `sha2::Sha256`: the state's bytes.
#[verifier::external_body]
fn serialize256(h: &sha2::Sha256) -> (r: Vec<u8>)
    ensures
        r@ == sha256_state(*h),
{
    h.serialize().to_vec()
}

/// `serialize` of `sha2::Sha512`: the state's bytes.
#[verifier::external_body]
fn serialize512(h: &sha2::Sha512) -> (r: Vec<u8>)
    ensures
        r@ == sha512_state(*h),
{
    h.serialize().to_vec()
}

/// `deserialize` of `sha2::Sha256`: bytes that are a serialised state give a
/// hasher in that state, and other bytes give none.
#[verifier::external_body]
fn restore256(state: &[u8]) -> (r: Option<sha2::Sha256>)
    ensures
        match r {
            Some(h) => is_state(DigestAlgorithm::Sha256, state@) && sha256_state(h) == state@,
            None => !is_state(DigestAlgorithm::Sha256, state@),
        },
{
    let bytes: &SerializedState<sha2::Sha256> = state.try_into().ok()?;
    sha2::Sha256::deserialize(bytes).ok()
}

/// `deserialize` of `sha2::Sha512`: bytes that are a serialised state give a
/// hasher in that state, and other bytes give none.
#[verifier::external_body]
fn restore512(state: &[u8]) -> (r: Option<sha2::Sha512>)
    ensures
        match r {
            Some(h) => is_state(DigestAlgorithm::Sha512, state@) && sha512_state(h) == state@,
            None => !is_state(DigestAlgorithm::Sha512, state@),
        },
{
    let bytes: &SerializedState<sha2::Sha512> = state.try_into().ok()?;
    sha2::Sha512::deserialize(bytes).ok()
}

// --- the hasher ------------------------------------------------------------------

/// The state after one in some state takes in some bytes.
pub open spec fn step(a: DigestAlgorithm, state: Seq<u8>, bytes: Seq<u8>) -> Seq<u8> {
    match a {
        DigestAlgorithm::Sha256 => sha256_step(state, bytes),
        DigestAlgorithm::Sha512 => sha512_step(state, bytes),
    }
}

/// The state of a hasher that has taken in some bytes from the start.
pub open spec fn state_of(a: DigestAlgorithm, bytes: Seq<u8>) -> Seq<u8> {
    if bytes.len() == 0 {
        initial_state(a)
    } else {
        step(a, initial_state(a), bytes)
    }
}

/// The hash that a state gives.
pub open spec fn finish(a: DigestAlgorithm, state: Seq<u8>) -> Seq<u8> {
    match a {
        DigestAlgorithm::Sha256 => sha256_finish(state),
        DigestAlgorithm::Sha512 => sha512_finish(state),
    }
}

/// A digest is the hash of some content.
pub open spec fn is_digest_of(d: Digest, content: Seq<u8>) -> bool {
    let a = if d is Sha256 {
        DigestAlgorithm::Sha256
    } else {
        DigestAlgorithm::Sha512
    };
    d.raw_bytes() == finish(a, state_of(a, content))
}

/// Content has one digest of each algorithm.
pub proof fn digests_of_content_agree(a: Digest, b: Digest, content: Seq<u8>)
    requires
        (a is Sha256) == (b is Sha256),
        is_digest_of(a, content),
        is_digest_of(b, content),
    ensures
        a == b,
{
    digest_extensional(a, b);
}

enum Inner {
    Sha256(sha2::Sha256),
    Sha512(sha2::Sha512),
}

impl Inner {
    spec fn algorithm(self) -> DigestAlgorithm {
        match self {
            Inner::Sha256(_) => DigestAlgorithm::Sha256,
            Inner::Sha512(_) => DigestAlgorithm::Sha512,
        }
    }

    spec fn state(self) -> Seq<u8> {
        match self {
            Inner::Sha256(h) => sha256_state(h),
            Inner::Sha512(h) => sha512_state(h),
        }
    }
}

/// A hasher, and how many bytes it can still take in; `None` where it is already
/// past its capacity.
pub struct Hasher {
    inner: Inner,
    room: Option<u128>,
}

impl Hasher {
    /// Which hash this is.
    pub closed spec fn algorithm(self) -> DigestAlgorithm {
        self.inner.algorithm()
    }

    /// The state it is in.
    pub closed spec fn state(self) -> Seq<u8> {
        self.inner.state()
    }

    /// How many bytes it can still take in.
    pub closed spec fn space(self) -> Option<u128> {
        self.room
    }

    /// The hasher's state is one, and its room is what the state leaves.
    pub open spec fn valid(self) -> bool {
        let taken = taken_in(self.algorithm(), self.state());
        &&& is_state(self.algorithm(), self.state())
        &&& match self.space() {
            Some(n) => taken + n == capacity(self.algorithm()),
            None => taken > capacity(self.algorithm()),
        }
    }

    /// A hasher that has taken in nothing.
    pub fn new(algorithm: DigestAlgorithm) -> (r: Self)
        ensures
            r.valid(),
            r.algorithm() == algorithm,
            r.state() == state_of(algorithm, Seq::empty()),
            r.space() is Some,
    {
        proof {
            let s = initial_state(algorithm);
            let count = s.subrange(count_at(algorithm) as int, buffer_at(algorithm) as int);
            assert forall|i: int| 0 <= i < count.len() implies count[i] == 0 by {}
            lemma_le_zero(count);
            assert(s[buffer_at(algorithm) as int] == 0);
        }
        match algorithm {
            DigestAlgorithm::Sha256 => Hasher {
                inner: Inner::Sha256(new256()),
                room: Some((u64::MAX / 8) as u128),
            },
            DigestAlgorithm::Sha512 => Hasher {
                inner: Inner::Sha512(new512()),
                room: Some(u128::MAX / 8),
            },
        }
    }

    /// Whether `len` more bytes fit.
    pub fn has_room(&self, len: usize) -> (r: bool)
        ensures
            r == (self.space() matches Some(n) && len <= n),
    {
        match self.room {
            Some(n) => len as u128 <= n,
            None => false,
        }
    }

    /// Take in some bytes.
    pub fn update(&mut self, bytes: &[u8])
        requires
            old(self).valid(),
            old(self).space() matches Some(n) && bytes@.len() <= n,
        ensures
            final(self).valid(),
            final(self).algorithm() == old(self).algorithm(),
            final(self).state() == step(old(self).algorithm(), old(self).state(), bytes@),
            final(self).space() == Some((old(self).space()->0 - bytes@.len()) as u128),
            forall|content: Seq<u8>|
                old(self).state() == #[trigger] state_of(old(self).algorithm(), content)
                    ==> final(self).state() == state_of(old(self).algorithm(), content + bytes@),
    {
        let ghost before = *self;
        let ghost a = self.algorithm();
        match &mut self.inner {
            Inner::Sha256(h) => update256(h, bytes),
            Inner::Sha512(h) => update512(h, bytes),
        }
        self.room = match self.room {
            Some(n) => Some(n - bytes.len() as u128),
            None => None,
        };
        proof {
            assert forall|content: Seq<u8>|
                before.state() == #[trigger] state_of(a, content) implies self.state() == state_of(
                a,
                content + bytes@,
            ) by {
                if content.len() == 0 {
                    assert(content + bytes@ =~= bytes@);
                } else {
                    assert(step(a, initial_state(a), content) == before.state());
                }
            }
        }
    }

    /// Consume the hasher and produce the digest of everything fed to it.
    pub fn finalize(self) -> (r: Digest)
        requires
            self.valid(),
            self.space() is Some,
        ensures
            (r is Sha256) == (self.algorithm() == DigestAlgorithm::Sha256),
            r.raw_bytes() == finish(self.algorithm(), self.state()),
            forall|content: Seq<u8>|
                self.state() == #[trigger] state_of(self.algorithm(), content) ==> is_digest_of(
                    r,
                    content,
                ),
    {
        match self.inner {
            Inner::Sha256(h) => Digest::Sha256(finish256(h)),
            Inner::Sha512(h) => Digest::Sha512(finish512(h)),
        }
    }

    /// Opaque state at the current offset, for a stored session.
    pub fn serialize_state(&self) -> (r: Vec<u8>)
        requires
            self.valid(),
        ensures
            r@ == self.state(),
            is_state(self.algorithm(), r@),
    {
        match &self.inner {
            Inner::Sha256(h) => serialize256(h),
            Inner::Sha512(h) => serialize512(h),
        }
    }

    /// Rebuild a hasher from its serialised state.
    ///
    /// A wrong-length or corrupt state is a hard error rather than a silent
    /// restart from zero: restarting would produce a digest over only the tail of
    /// the blob, which commit would then reject as a client digest mismatch - a
    /// correct outcome reported as the wrong party's fault.
    pub fn restore(algorithm: DigestAlgorithm, state: &[u8]) -> (r: Result<Self>)
        ensures
            match r {
                Ok(h) => h.valid() && h.algorithm() == algorithm && h.state() == state@ && is_state(
                    algorithm,
                    state@,
                ),
                Err(SummError::Storage(m)) => !is_state(algorithm, state@) && m@ == if state@.len()
                    != state_len(algorithm) {
                    "corrupt "@ + algorithm.name() + " hasher state: expected "@ + decimal(
                        state_len(algorithm),
                    ) + " bytes, got "@ + decimal(state@.len())
                } else {
                    "corrupt "@ + algorithm.name() + " hasher state: rejected by sha2"@
                },
                Err(_) => false,
            },
    {
        let want: u64 = match algorithm {
            DigestAlgorithm::Sha256 => 104,
            DigestAlgorithm::Sha512 => 208,
        };
        if state.len() as u64 != want {
            let mut m = "corrupt ".to_owned();
            m.append(algorithm.as_str());
            m.append(" hasher state: expected ");
            m.append(decimal_text(want).as_str());
            m.append(" bytes, got ");
            m.append(decimal_text(state.len() as u64).as_str());
            return Err(SummError::Storage(m));
        }
        let inner = match algorithm {
            DigestAlgorithm::Sha256 => match restore256(state) {
                Some(h) => Inner::Sha256(h),
                None => return Err(rejected(algorithm)),
            },
            DigestAlgorithm::Sha512 => match restore512(state) {
                Some(h) => Inner::Sha512(h),
                None => return Err(rejected(algorithm)),
            },
        };
        Ok(Hasher { inner, room: room_of(algorithm, state) })
    }
}

fn rejected(algorithm: DigestAlgorithm) -> (r: SummError)
    ensures
        r matches SummError::Storage(m) && m@ == "corrupt "@ + algorithm.name()
            + " hasher state: rejected by sha2"@,
{
    let mut m = "corrupt ".to_owned();
    m.append(algorithm.as_str());
    m.append(" hasher state: rejected by sha2");
    SummError::Storage(m)
}

proof fn lemma_le_zero(b: Seq<u8>)
    requires
        forall|i: int| 0 <= i < b.len() ==> b[i] == 0,
    ensures
        le_value(b) == 0,
    decreases b.len(),
{
    if b.len() > 0 {
        lemma_le_zero(b.drop_first());
    }
}

/// The number that some bytes write, where it is no larger than `max`.
fn le_number(b: &[u8], max: u128) -> (r: Option<u128>)
    requires
        max <= u128::MAX / 8,
    ensures
        match r {
            Some(n) => n == le_value(b@) && n <= max,
            None => le_value(b@) > max,
        },
{
    let mut n: u128 = 0;
    let mut i: usize = b.len();
    while i > 0
        invariant
            i <= b@.len(),
            max <= u128::MAX / 8,
            n == le_value(b@.subrange(i as int, b@.len() as int)),
            n <= max,
        decreases i,
    {
        proof {
            let tail = b@.subrange(i - 1, b@.len() as int);
            assert(tail.drop_first() =~= b@.subrange(i as int, b@.len() as int));
            lemma_le_grows(b@, i - 1);
        }
        let low: u128 = b[i - 1] as u128;
        if low > max || n > (max - low) / 256 {
            return None;
        }
        n = n * 256 + low;
        i -= 1;
    }
    assert(b@.subrange(0, b@.len() as int) =~= b@);
    Some(n)
}

/// Dropping the least significant bytes makes a number no larger.
proof fn lemma_le_grows(b: Seq<u8>, n: int)
    requires
        0 <= n <= b.len(),
    ensures
        le_value(b.subrange(n, b.len() as int)) <= le_value(b),
    decreases n,
{
    if n == 0 {
        assert(b.subrange(0, b.len() as int) =~= b);
    } else {
        lemma_le_grows(b, n - 1);
        let t = b.subrange(n - 1, b.len() as int);
        assert(t.drop_first() =~= b.subrange(n, b.len() as int));
    }
}

/// How many more bytes a state leaves room for.
fn room_of(a: DigestAlgorithm, state: &[u8]) -> (r: Option<u128>)
    requires
        is_state(a, state@),
    ensures
        match r {
            Some(n) => taken_in(a, state@) + n == capacity(a),
            None => taken_in(a, state@) > capacity(a),
        },
{
    match a {
        DigestAlgorithm::Sha256 => {
            let whole: u128 = (u64::MAX / 8) as u128;
            let waiting: u128 = state[40] as u128;
            match le_number(vstd::slice::slice_subrange(state, 32, 40), whole / 64) {
                Some(n) => if n * 64 + waiting <= whole {
                    Some(whole - (n * 64 + waiting))
                } else {
                    None
                },
                None => None,
            }
        },
        DigestAlgorithm::Sha512 => {
            let whole: u128 = u128::MAX / 8;
            let waiting: u128 = state[80] as u128;
            match le_number(vstd::slice::slice_subrange(state, 64, 80), whole / 128) {
                Some(n) => if n * 128 + waiting <= whole {
                    Some(whole - (n * 128 + waiting))
                } else {
                    None
                },
                None => None,
            }
        },
    }
}

/// The digest of some content held whole.
pub fn digest_of(algorithm: DigestAlgorithm, content: &[u8]) -> (r: Option<Digest>)
    ensures
        match r {
            Some(d) => is_digest_of(d, content@) && (d is Sha256) == (algorithm
                == DigestAlgorithm::Sha256) && content@.len() <= capacity(algorithm),
            None => content@.len() > capacity(algorithm),
        },
{
    let mut h = Hasher::new(algorithm);
    proof {
        let s = initial_state(algorithm);
        let count = s.subrange(count_at(algorithm) as int, buffer_at(algorithm) as int);
        lemma_le_zero(count);
    }
    if !h.has_room(content.len()) {
        return None;
    }
    h.update(content);
    proof {
        assert(state_of(algorithm, Seq::empty()) == initial_state(algorithm));
        assert(Seq::<u8>::empty() + content@ =~= content@);
        assert(h.state() == state_of(algorithm, Seq::<u8>::empty() + content@));
    }
    Some(h.finalize())
}

} // verus!
