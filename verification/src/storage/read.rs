//! Reading blobs: what a range covers, and which reads serve it.
use vstd::prelude::*;

verus! {

/// A `Range` header value, parsed but not yet resolved against a size.
#[derive(Debug, Clone, Copy, PartialEq, Eq, Structural)]
pub enum ByteRange {
    /// `bytes=<start>-<end>`, inclusive at both ends.
    Inclusive { start: u64, end: u64 },
    /// `bytes=<start>-`, open ended.
    From { start: u64 },
    /// `bytes=-<len>`, the last `len` bytes.
    Suffix { len: u64 },
}

/// The bytes, first and last, that a range covers of a blob of some size; `None`
/// where it covers none.
pub open spec fn resolved(range: ByteRange, size: int) -> Option<(int, int)> {
    match range {
        ByteRange::Inclusive { start, end } => if start <= end && start < size {
            Some(
                (
                    start as int,
                    if end < size {
                        end as int
                    } else {
                        size - 1
                    },
                ),
            )
        } else {
            None
        },
        ByteRange::From { start } => if start < size {
            Some((start as int, size - 1))
        } else {
            None
        },
        ByteRange::Suffix { len } => if len > 0 && size > 0 {
            Some(
                (
                    if len < size {
                        size - len
                    } else {
                        0
                    },
                    size - 1,
                ),
            )
        } else {
            None
        },
    }
}

/// What a range asks for of a position: whether the byte there is in it.
pub open spec fn asks_for(range: ByteRange, size: int, i: int) -> bool {
    0 <= i < size && match range {
        ByteRange::Inclusive { start, end } => start <= i <= end,
        ByteRange::From { start } => start <= i,
        ByteRange::Suffix { len } => size - len <= i,
    }
}

/// A resolved range covers exactly the bytes asked for, at least one, and lies
/// inside the blob; an unsatisfiable one asks for none.
pub proof fn ranges_resolve_to_what_they_ask_for(range: ByteRange, size: int)
    requires
        size >= 0,
    ensures
        match resolved(range, size) {
            Some((start, end)) => 0 <= start <= end < size && forall|i: int|
                asks_for(range, size, i) <==> start <= i <= end,
            None => forall|i: int| !asks_for(range, size, i),
        },
{
}

impl ByteRange {
    /// Resolve against a known blob size.
    ///
    /// `None` means unsatisfiable, which the caller turns into a `416`. An
    /// over-long *end* is clamped rather than rejected, while an over-long *start*
    /// is unsatisfiable.
    pub fn resolve(self, size: u64) -> (r: Option<ResolvedRange>)
        ensures
            match r {
                Some(w) => w.valid() && resolved(self, size as int) == Some(
                    (w.first() as int, w.last() as int),
                ),
                None => resolved(self, size as int) is None,
            },
    {
        match self {
            ByteRange::Inclusive { start, end } => {
                if start > end || start >= size {
                    return None;
                }
                Some(
                    ResolvedRange {
                        start,
                        end: if end < size - 1 {
                            end
                        } else {
                            size - 1
                        },
                    },
                )
            },
            ByteRange::From { start } => {
                if start >= size {
                    return None;
                }
                Some(ResolvedRange { start, end: size - 1 })
            },
            ByteRange::Suffix { len } => {
                if len == 0 || size == 0 {
                    return None;
                }
                Some(ResolvedRange { start: size.saturating_sub(len), end: size - 1 })
            },
        }
    }
}

/// A range known to lie inside a specific blob.
///
/// Constructed only by resolving, so having one means that the `416` decision has
/// already been made.
#[derive(Debug, Clone, Copy, PartialEq, Eq, Structural)]
pub struct ResolvedRange {
    start: u64,
    end: u64,
}

impl ResolvedRange {
    pub closed spec fn first(self) -> u64 {
        self.start
    }

    pub closed spec fn last(self) -> u64 {
        self.end
    }

    /// A resolved range covers at least one byte, and not every byte a blob could
    /// have.
    pub open spec fn valid(self) -> bool {
        self.first() <= self.last() < u64::MAX
    }

    pub fn start(self) -> (r: u64)
        ensures
            r == self.first(),
    {
        self.start
    }

    /// Inclusive, matching the `Content-Range: bytes <start>-<end>/<total>` form
    /// the download path uses.
    pub fn end(self) -> (r: u64)
        ensures
            r == self.last(),
    {
        self.end
    }

    /// The `Content-Length` of the `206`.
    pub fn len(self) -> (r: u64)
        requires
            self.valid(),
        ensures
            r == self.last() - self.first() + 1,
    {
        self.end - self.start + 1
    }

    /// Always false: an empty range is unsatisfiable and resolves to `None`.
    pub fn is_empty(self) -> (r: bool)
        ensures
            !r,
    {
        false
    }
}

/// A blob to be read: its size, and how much is read at a time.
#[derive(Debug, Clone, Copy, PartialEq, Eq, Structural)]
pub struct Blob {
    size: u64,
    chunk_size: usize,
}

impl Blob {
    pub closed spec fn bytes(self) -> u64 {
        self.size
    }

    pub closed spec fn chunk(self) -> usize {
        self.chunk_size
    }

    pub fn new(size: u64, chunk_size: usize) -> (r: Self)
        ensures
            r.bytes() == size,
            r.chunk() == chunk_size,
    {
        Blob { size, chunk_size }
    }

    pub fn size(&self) -> (r: u64)
        ensures
            r == self.bytes(),
    {
        self.size
    }

    /// Resolve a `Range` against this blob. `None` is a `416`.
    pub fn resolve(&self, range: ByteRange) -> (r: Option<ResolvedRange>)
        ensures
            match r {
                Some(w) => w.valid() && w.last() < self.bytes() && resolved(
                    range,
                    self.bytes() as int,
                ) == Some((w.first() as int, w.last() as int)),
                None => resolved(range, self.bytes() as int) is None,
            },
    {
        range.resolve(self.size)
    }

    /// Stream the whole blob.
    pub fn stream(self) -> (r: BlobStream)
        ensures
            r.valid(),
            r.pending() is None,
            r.next() == 0,
            r.end() == self.bytes(),
            r.chunk() == self.chunk(),
    {
        self.stream_from(0, self.size)
    }

    /// Stream one resolved range, cut to the blob: nothing stops a caller
    /// resolving against one blob and streaming another.
    pub fn stream_range(self, range: ResolvedRange) -> (r: BlobStream)
        ensures
            r.valid(),
            r.pending() is None,
            r.chunk() == self.chunk(),
            r.next() == if range.first() < self.bytes() {
                range.first()
            } else {
                self.bytes()
            },
            r.end() == if range.first() > range.last() || range.first() >= self.bytes() {
                r.next() as int
            } else if range.last() < self.bytes() {
                range.last() + 1
            } else {
                self.bytes() as int
            },
    {
        let start: u64 = if range.start < self.size {
            range.start
        } else {
            self.size
        };
        let last: u64 = self.size.saturating_sub(1);
        let end: u64 = if range.end < last {
            range.end
        } else {
            last
        };
        let len: u64 = if self.size == 0 || start > end {
            0
        } else {
            end - start + 1
        };
        self.stream_from(start, len)
    }

    fn stream_from(self, offset: u64, len: u64) -> (r: BlobStream)
        requires
            offset + len <= u64::MAX,
        ensures
            r.valid(),
            r.pending() is None,
            r.next() == offset,
            r.end() == offset + len,
            r.chunk() == self.chunk(),
    {
        BlobStream {
            next_offset: offset,
            end_offset: offset + len,
            chunk_size: self.chunk_size,
            inflight: None,
        }
    }
}

/// One read: where it starts and how many bytes it wants.
#[derive(Debug, Clone, Copy, PartialEq, Eq, Structural)]
pub struct ReadAt {
    pub offset: u64,
    pub len: usize,
}

/// The reads that serve the bytes from `next` up to `end`, `chunk` at a time.
pub open spec fn schedule(next: nat, end: nat, chunk: nat) -> Seq<(nat, nat)>
    decreases end - next,
{
    if next >= end || chunk == 0 {
        Seq::empty()
    } else {
        let n = if end - next < chunk {
            (end - next) as nat
        } else {
            chunk
        };
        seq![(next, n)] + schedule(next + n, end, chunk)
    }
}

/// The reads of a schedule are adjacent, none is empty or longer than a chunk,
/// and together they cover the slice: none of it is left out or read twice.
pub proof fn a_schedule_covers_the_slice(next: nat, end: nat, chunk: nat)
    requires
        next <= end,
        chunk > 0,
    ensures
        ({
            let reads = schedule(next, end, chunk);
            &&& reads.len() == 0 <==> next == end
            &&& reads.len() > 0 ==> reads[0].0 == next && reads.last().0 + reads.last().1 == end
            &&& forall|i: int|
                0 <= i < reads.len() ==> 0 < (#[trigger] reads[i]).1 <= chunk && reads[i].0
                    + reads[i].1 <= end
            &&& forall|i: int, j: int|
                0 <= i && j == i + 1 && j < reads.len() ==> (#[trigger] reads[i]).0 + reads[i].1
                    == (#[trigger] reads[j]).0
        }),
    decreases end - next,
{
    if next < end {
        let n = if end - next < chunk {
            (end - next) as nat
        } else {
            chunk
        };
        a_schedule_covers_the_slice(next + n, end, chunk);
        let rest = schedule(next + n, end, chunk);
        let reads = schedule(next, end, chunk);
        assert(reads =~= seq![(next, n)] + rest);
        assert forall|i: int| 0 <= i < reads.len() implies 0 < (#[trigger] reads[i]).1 <= chunk
            && reads[i].0 + reads[i].1 <= end by {
            if i > 0 {
                assert(reads[i] == rest[i - 1]);
            }
        }
        assert forall|i: int, j: int| 0 <= i && j == i + 1 && j < reads.len() implies (
        #[trigger] reads[i]).0 + reads[i].1 == (#[trigger] reads[j]).0 by {
            assert(reads[j] == rest[j - 1]);
            if i > 0 {
                assert(reads[i] == rest[i - 1]);
            }
        }
        if rest.len() > 0 {
            assert(reads.last() == rest.last());
        }
    }
}

/// How many reads a schedule has.
pub proof fn lemma_schedule_len(next: nat, end: nat, chunk: nat)
    requires
        next <= end,
        chunk > 0,
    ensures
        schedule(next, end, chunk).len() == (end - next + chunk - 1) / chunk as int,
    decreases end - next,
{
    if next < end {
        if end - next <= chunk {
            let n = (end - next) as nat;
            assert(schedule(next + n, end, chunk).len() == 0);
            assert((end - next + chunk - 1) / chunk as int == 1) by (nonlinear_arith)
                requires
                    0 < end - next <= chunk,
            ;
        } else {
            lemma_schedule_len(next + chunk, end, chunk);
            let m = end - next - chunk + chunk - 1;
            assert((m + chunk) / chunk as int == m / chunk as int + 1) by (nonlinear_arith)
                requires
                    chunk > 0,
                    m >= 0,
            ;
        }
    } else {
        assert((chunk - 1) / chunk as int == 0) by (nonlinear_arith)
            requires
                chunk > 0,
        ;
    }
}

/// A blob body on its way out: one read is always in flight ahead of the chunk
/// being yielded, so the socket is fed while the next read runs.
///
/// Exactly one, so that an aborted response wastes at most one chunk's work.
#[derive(Debug, Clone, Copy, PartialEq, Eq, Structural)]
pub struct BlobStream {
    /// Next byte to issue a read for.
    next_offset: u64,
    /// One past the last byte of the slice being served.
    end_offset: u64,
    chunk_size: usize,
    /// The length that the read in flight will produce.
    inflight: Option<u64>,
}

impl BlobStream {
    pub closed spec fn next(self) -> nat {
        self.next_offset as nat
    }

    pub closed spec fn end(self) -> nat {
        self.end_offset as nat
    }

    pub closed spec fn chunk(self) -> usize {
        self.chunk_size
    }

    /// The length of the read in flight.
    pub closed spec fn pending(self) -> Option<u64> {
        self.inflight
    }

    pub open spec fn valid(self) -> bool {
        &&& self.next() <= self.end() <= u64::MAX
        &&& self.pending() matches Some(n) ==> n <= self.next()
    }

    /// The reads still to be issued.
    pub open spec fn to_read(self) -> Seq<(nat, nat)> {
        schedule(self.next(), self.end(), self.chunk() as nat)
    }

    /// Bytes this stream has yet to yield - the `Content-Length` of the response,
    /// before anything has been consumed.
    pub fn len(&self) -> (r: u64)
        requires
            self.valid(),
        ensures
            r == self.end() - self.next() + match self.pending() {
                Some(n) => n as int,
                None => 0,
            },
    {
        let queued: u64 = match self.inflight {
            Some(n) => n,
            None => 0,
        };
        (self.end_offset - self.next_offset) + queued
    }

    pub fn is_empty(&self) -> (r: bool)
        requires
            self.valid(),
        ensures
            r == (self.end() == self.next() && (self.pending() matches Some(n) ==> n == 0)),
    {
        self.len() == 0
    }

    /// Put the next read in flight. `None` once the last chunk has been issued,
    /// which is what ends the stream.
    pub fn spawn_next(&mut self) -> (r: Option<ReadAt>)
        requires
            old(self).valid(),
            old(self).pending() is None,
            old(self).chunk() > 0,
        ensures
            final(self).valid(),
            final(self).end() == old(self).end(),
            final(self).chunk() == old(self).chunk(),
            match r {
                Some(read) => {
                    &&& old(self).to_read().len() > 0
                    &&& (read.offset as nat, read.len as nat) == old(self).to_read()[0]
                    &&& final(self).to_read() == old(self).to_read().drop_first()
                    &&& final(self).pending() == Some(read.len as u64)
                    &&& final(self).next() == read.offset + read.len
                },
                None => old(self).to_read().len() == 0 && *final(self) == *old(self),
            },
    {
        let remaining: u64 = self.end_offset - self.next_offset;
        if remaining == 0 {
            return None;
        }
        let ghost before = *self;
        let len: usize = if remaining < self.chunk_size as u64 {
            remaining as usize
        } else {
            self.chunk_size
        };
        let offset: u64 = self.next_offset;
        self.next_offset = offset + len as u64;
        self.inflight = Some(len as u64);
        assert(self.to_read() =~= before.to_read().drop_first());
        Some(ReadAt { offset, len })
    }

    /// The read in flight is over. A good one is yielded with the next already
    /// issued; a failed one ends the stream, rather than skipping to the chunk
    /// after it: a body with a hole in it would turn a retryable failure into a
    /// digest mismatch on the client.
    pub fn finished(&mut self, ok: bool) -> (r: Option<ReadAt>)
        requires
            old(self).valid(),
            old(self).pending() is Some,
            old(self).chunk() > 0,
        ensures
            final(self).valid(),
            final(self).end() == old(self).end(),
            final(self).chunk() == old(self).chunk(),
            !ok ==> r is None && final(self).pending() is None && final(self).to_read().len() == 0
                && final(self).next() == final(self).end(),
            ok ==> match r {
                Some(read) => {
                    &&& old(self).to_read().len() > 0
                    &&& (read.offset as nat, read.len as nat) == old(self).to_read()[0]
                    &&& final(self).to_read() == old(self).to_read().drop_first()
                    &&& final(self).pending() == Some(read.len as u64)
                },
                None => old(self).to_read().len() == 0 && final(self).to_read().len() == 0
                    && final(self).pending() is None,
            },
    {
        self.inflight = None;
        if ok {
            self.spawn_next()
        } else {
            self.next_offset = self.end_offset;
            None
        }
    }

    /// How many chunks are still to come, where every read is a whole chunk but
    /// the last.
    pub fn size_hint(&self) -> (r: usize)
        requires
            self.valid(),
        ensures
            ({
                let total = self.end() - self.next() + match self.pending() {
                    Some(n) => n as int,
                    None => 0,
                };
                let chunk = if self.chunk() == 0 {
                    1int
                } else {
                    self.chunk() as int
                };
                let chunks = (total + chunk - 1) / chunk;
                r == if chunks <= usize::MAX {
                    chunks
                } else {
                    usize::MAX as int
                }
            }),
    {
        let chunk: u64 = if self.chunk_size == 0 {
            1
        } else {
            self.chunk_size as u64
        };
        let total: u64 = self.len();
        let whole: u64 = total / chunk;
        let chunks: u64 = if total % chunk > 0 {
            assert(whole < u64::MAX) by (nonlinear_arith)
                requires
                    chunk >= 1,
                    whole == total / chunk,
                    total % chunk > 0,
                    total <= u64::MAX,
            ;
            whole + 1
        } else {
            whole
        };
        proof {
            let (t, c) = (total as int, chunk as int);
            assert(chunks == (t + c - 1) / c) by (nonlinear_arith)
                requires
                    c >= 1,
                    t >= 0,
                    chunks == if t % c > 0 {
                        t / c + 1
                    } else {
                        t / c
                    },
            ;
        }
        if chunks <= usize::MAX as u64 {
            chunks as usize
        } else {
            usize::MAX
        }
    }
}

// --- moving a run of bytes -----------------------------------------------------

/// How one attempt to move bytes went.
#[derive(Debug, Clone, Copy, PartialEq, Eq, Structural)]
pub enum Moved {
    /// So many bytes, none of them twice.
    Bytes(usize),
    Interrupted,
    Failed,
}

/// What to do after an attempt.
#[derive(Debug, Clone, Copy, PartialEq, Eq, Structural)]
pub enum NextMove {
    /// Move the rest, from this place in the buffer, at this place in the file.
    Again { done: usize, at: u64 },
    Complete,
    /// Nothing moved although something was left: the file ended early.
    CutShort,
    GiveUp,
}

/// A run of bytes moved between a buffer and a file, as many attempts as it
/// takes.
#[derive(Debug, Clone, Copy, PartialEq, Eq, Structural)]
pub struct Transfer {
    offset: u64,
    len: usize,
    done: usize,
}

impl Transfer {
    pub closed spec fn start(self) -> u64 {
        self.offset
    }

    pub closed spec fn total(self) -> usize {
        self.len
    }

    pub closed spec fn moved(self) -> usize {
        self.done
    }

    pub open spec fn valid(self) -> bool {
        self.moved() <= self.total() && self.start() + self.total() <= u64::MAX
    }

    /// A run that ends inside the file's address space.
    pub fn new(offset: u64, len: usize) -> (r: Option<Self>)
        ensures
            match r {
                Some(t) => t.valid() && t.start() == offset && t.total() == len && t.moved() == 0,
                None => offset + len > u64::MAX,
            },
    {
        if len as u64 > u64::MAX - offset {
            return None;
        }
        Some(Transfer { offset, len, done: 0 })
    }

    /// The first move.
    pub fn begin(&self) -> (r: NextMove)
        requires
            self.valid(),
        ensures
            r == if self.moved() == self.total() {
                NextMove::Complete
            } else {
                NextMove::Again { done: self.moved(), at: (self.start() + self.moved()) as u64 }
            },
    {
        if self.done == self.len {
            NextMove::Complete
        } else {
            NextMove::Again { done: self.done, at: self.offset + self.done as u64 }
        }
    }

    /// The move after an attempt. An interrupted attempt is made again; one that
    /// moved nothing is a file cut short.
    pub fn step(&mut self, outcome: Moved) -> (r: NextMove)
        requires
            old(self).valid(),
            old(self).moved() < old(self).total(),
            outcome matches Moved::Bytes(n) ==> n <= old(self).total() - old(self).moved(),
        ensures
            final(self).valid(),
            final(self).start() == old(self).start(),
            final(self).total() == old(self).total(),
            final(self).moved() == match outcome {
                Moved::Bytes(n) => old(self).moved() + n,
                _ => old(self).moved() as int,
            },
            r == match outcome {
                Moved::Bytes(0) => NextMove::CutShort,
                Moved::Failed => NextMove::GiveUp,
                _ => if final(self).moved() == final(self).total() {
                    NextMove::Complete
                } else {
                    NextMove::Again {
                        done: final(self).moved(),
                        at: (final(self).start() + final(self).moved()) as u64,
                    }
                },
            },
    {
        match outcome {
            Moved::Bytes(0) => NextMove::CutShort,
            Moved::Bytes(n) => {
                self.done = self.done + n;
                self.begin()
            },
            Moved::Interrupted => self.begin(),
            Moved::Failed => NextMove::GiveUp,
        }
    }
}

} // verus!
