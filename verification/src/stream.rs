//! Chunking of a byte stream through a bounded buffer.
//!
//! The chunker holds a buffer of `2 * max_size` bytes. Reading is left to the
//! caller: [`StreamingChunker::poll`] says whether input is wanted,
//! [`StreamingChunker::fill_buffer`] takes the outcome of a read, and
//! [`StreamingChunker::emit_chunk`] cuts the next chunk from the buffered bytes once
//! `poll` no longer asks for input. Cutting only then makes the boundaries independent
//! of how reads split the stream (`lemma_stream_runs_agree`).
use vstd::prelude::*;
use vstd::slice::slice_subrange;
use crate::chunk::{
    chunk_describes, content_digest, content_hash_of, max_int, min_int, Chunk, MASK_L, MASK_S,
};
use crate::analysis::length_sum;
use crate::config::{Config, ContentHashMode};
use crate::gear::{
    first_cut, is_cut, lemma_first_cut_bounds, lemma_first_cut_shift, lemma_search_step, lemma_window_empty,
    lemma_window_hash_shift, update_hash, window_hash,
};

verus! {

/// End (exclusive, within the buffer) and rolling hash of the chunk that starts at
/// `start` in `buf[..len]`.
///
/// When at most `min_size` bytes are buffered they form the chunk. Otherwise one
/// scan begins at `start + min_size` with a fresh hash; it looks for a cut-point with
/// `MASK_S` up to `start + avg_size`, then, keeping the same hash, with `MASK_L` up to
/// `start + max_size` (both cut off at `len`). Without a cut-point the chunk ends at
/// `min(start + max_size, len)`.
pub open spec fn spec_stream_chunk_end(buf: Seq<u8>, start: int, len: int, config: Config) -> (
    int,
    u64,
) {
    if len - start <= config.min_size {
        (len, 0)
    } else {
        let scan = start + config.min_size;
        let max = min_int(start + config.max_size, len);
        let limit_s = min_int(start + config.avg_size, max);
        match first_cut(buf, scan, scan + 1, limit_s, MASK_S) {
            Some(p) => (p, window_hash(buf, scan, p)),
            None => {
                let resume = max_int(scan, limit_s);
                match first_cut(buf, scan, resume + 1, max, MASK_L) {
                    Some(p) => (p, window_hash(buf, scan, p)),
                    None => (max, window_hash(buf, scan, max_int(resume, max))),
                }
            },
        }
    }
}

/// Two scan-branch chunk computations over equal windows, at the same offsets from
/// their starts, agree up to the shift.
proof fn lemma_stream_scan_shift(
    b1: Seq<u8>,
    p1: int,
    l1: int,
    b2: Seq<u8>,
    p2: int,
    l2: int,
    config: Config,
)
    requires
        config.min_size <= config.max_size,
        0 <= p1 && l1 - p1 > config.min_size && l1 <= b1.len(),
        0 <= p2 && l2 - p2 > config.min_size && l2 <= b2.len(),
        min_int(config.max_size as int, l1 - p1) == min_int(config.max_size as int, l2 - p2),
        b1.subrange(p1, p1 + min_int(config.max_size as int, l1 - p1)) == b2.subrange(
            p2,
            p2 + min_int(config.max_size as int, l1 - p1),
        ),
    ensures
        spec_stream_chunk_end(b1, p1, l1, config).0 - p1 == spec_stream_chunk_end(
            b2,
            p2,
            l2,
            config,
        ).0 - p2,
        spec_stream_chunk_end(b1, p1, l1, config).1 == spec_stream_chunk_end(b2, p2, l2, config).1,
{
    let w = min_int(config.max_size as int, l1 - p1);
    let mn = config.min_size as int;
    let s1 = p1 + mn;
    let s2 = p2 + mn;
    let mx1 = min_int(p1 + config.max_size, l1);
    let mx2 = min_int(p2 + config.max_size, l2);
    assert(mx1 == p1 + w && mx2 == p2 + w);
    let lim1 = min_int(p1 + config.avg_size, mx1);
    let lim2 = min_int(p2 + config.avg_size, mx2);
    assert(lim1 - p1 == lim2 - p2);
    let nl = w - mn;
    assert(b1.subrange(s1, s1 + nl) =~= b1.subrange(p1, p1 + w).subrange(mn, w));
    assert(b2.subrange(s2, s2 + nl) =~= b2.subrange(p2, p2 + w).subrange(mn, w));
    if lim1 >= s1 {
        let ns = lim1 - s1;
        assert(b1.subrange(s1, s1 + ns) =~= b1.subrange(s1, s1 + nl).subrange(0, ns));
        assert(b2.subrange(s2, s2 + ns) =~= b2.subrange(s2, s2 + nl).subrange(0, ns));
        lemma_first_cut_shift(b1, s1, b2, s2, ns, 1, MASK_S);
        lemma_first_cut_bounds(b1, s1, s1 + 1, lim1, MASK_S);
    }
    let res1 = max_int(s1, lim1);
    let res2 = max_int(s2, lim2);
    assert(res1 - s1 == res2 - s2);
    lemma_first_cut_shift(b1, s1, b2, s2, nl, res1 - s1 + 1, MASK_L);
    lemma_first_cut_bounds(b1, s1, res1 + 1, mx1, MASK_L);
    match first_cut(b1, s1, s1 + 1, lim1, MASK_S) {
        Some(p) => {
            lemma_window_hash_shift(b1, s1, b2, s2, nl, p - s1);
        },
        None => {
            match first_cut(b1, s1, res1 + 1, mx1, MASK_L) {
                Some(p) => {
                    lemma_window_hash_shift(b1, s1, b2, s2, nl, p - s1);
                },
                None => {
                    lemma_window_hash_shift(b1, s1, b2, s2, nl, max_int(res1, mx1) - s1);
                },
            }
        },
    }
}

/// A streaming chunk depends only on the bytes it can see: two chunk computations that
/// see the same remaining bytes, or that both see at least `max_size` bytes agreeing on
/// the first `max_size`, cut chunks of the same length with the same rolling hash.
pub proof fn lemma_stream_chunk_local(
    b1: Seq<u8>,
    p1: int,
    l1: int,
    b2: Seq<u8>,
    p2: int,
    l2: int,
    config: Config,
)
    requires
        config.min_size <= config.avg_size <= config.max_size,
        0 <= p1 < l1 <= b1.len(),
        0 <= p2 < l2 <= b2.len(),
        (l1 - p1 == l2 - p2 && b1.subrange(p1, l1) == b2.subrange(p2, l2)) || (l1 - p1
            >= config.max_size && l2 - p2 >= config.max_size && b1.subrange(
            p1,
            p1 + config.max_size,
        ) == b2.subrange(p2, p2 + config.max_size)),
    ensures
        spec_stream_chunk_end(b1, p1, l1, config).0 - p1 == spec_stream_chunk_end(
            b2,
            p2,
            l2,
            config,
        ).0 - p2,
        spec_stream_chunk_end(b1, p1, l1, config).1 == spec_stream_chunk_end(b2, p2, l2, config).1,
{
    let mn = config.min_size as int;
    let mx = config.max_size as int;
    let r1 = l1 - p1;
    let r2 = l2 - p2;
    if r1 == r2 && b1.subrange(p1, l1) == b2.subrange(p2, l2) {
        if r1 > mn {
            let w = min_int(mx, r1);
            assert(b1.subrange(p1, p1 + w) =~= b1.subrange(p1, l1).subrange(0, w));
            assert(b2.subrange(p2, p2 + w) =~= b2.subrange(p2, l2).subrange(0, w));
            lemma_stream_scan_shift(b1, p1, l1, b2, p2, l2, config);
        }
    } else if mn < mx {
        lemma_stream_scan_shift(b1, p1, l1, b2, p2, l2, config);
    } else {
        // min_size == avg_size == max_size: every chunk is exactly max_size long, hash 0.
        if r1 > mn {
            let s1 = p1 + mn;
            assert(first_cut(b1, s1, s1 + 1, s1, MASK_S) == None::<int>);
            lemma_window_empty(b1, s1);
        }
        if r2 > mn {
            let s2 = p2 + mn;
            assert(first_cut(b2, s2, s2 + 1, s2, MASK_S) == None::<int>);
            lemma_window_empty(b2, s2);
        }
    }
}

/// `start + max_size` and `start + avg_size` fit in `usize` where the chunk at
/// `start` needs them.
pub open spec fn stream_chunk_fits(start: int, len: int, config: Config) -> bool {
    len - start <= config.min_size || (start + config.max_size <= usize::MAX && start
        + config.avg_size <= usize::MAX)
}

/// A scan begun at `scan` has read `buf[scan..end)` and found no cut-point in
/// `[lo, end]` for `mask`.
spec fn search_state(buf: Seq<u8>, scan: int, lo: int, hi: int, mask: u64, end: int, hash: u64) -> bool {
    &&& hash == window_hash(buf, scan, end)
    &&& first_cut(buf, scan, lo, hi, mask) == first_cut(buf, scan, end + 1, hi, mask)
}

/// End and rolling hash of the chunk that starts at `start` in `buffer[..len]`.
pub fn stream_chunk_end(buffer: &[u8], start: usize, len: usize, config: Config) -> (r: (
    usize,
    u64,
))
    requires
        start < len <= buffer@.len(),
        stream_chunk_fits(start as int, len as int, config),
    ensures
        (r.0 as int, r.1) == spec_stream_chunk_end(buffer@, start as int, len as int, config),
{
    let remaining = len - start;
    let mut hash = 0u64;
    if remaining <= config.min_size {
        return (len, hash);
    }
    let scan = start + config.min_size;
    let mut end = scan;
    let max = if start + config.max_size <= len {
        start + config.max_size
    } else {
        len
    };
    let avg = start + config.avg_size;
    let limit_s = if avg <= max {
        avg
    } else {
        max
    };
    let ghost buf = buffer@;
    proof {
        lemma_window_empty(buf, scan as int);
    }
    while end < limit_s
        invariant
            scan <= end <= max_int(scan as int, limit_s as int),
            limit_s <= max <= len <= buf.len(),
            start < len,
            len - start > config.min_size,
            scan == start + config.min_size,
            max == min_int(start + config.max_size, len as int),
            limit_s == min_int(start + config.avg_size, max as int),
            buf == buffer@,
            search_state(buf, scan as int, scan + 1, limit_s as int, MASK_S, end as int, hash),
        decreases limit_s - end,
    {
        proof {
            lemma_search_step(buf, scan as int, end as int, limit_s as int, MASK_S, hash);
        }
        hash = update_hash(hash, buffer[end]);
        if (hash & MASK_S) == 0 {
            return (end + 1, hash);
        }
        end += 1;
    }
    proof {
        assert(first_cut(buf, scan as int, end + 1, limit_s as int, MASK_S) == None::<int>);
    }
    let ghost resume = end as int;
    while end < max
        invariant
            resume <= end,
            resume == max_int(scan as int, limit_s as int),
            end <= max || end == resume,
            max <= len <= buf.len(),
            start < len,
            len - start > config.min_size,
            scan == start + config.min_size,
            max == min_int(start + config.max_size, len as int),
            limit_s == min_int(start + config.avg_size, max as int),
            first_cut(buf, scan as int, scan + 1, limit_s as int, MASK_S) == None::<int>,
            buf == buffer@,
            search_state(buf, scan as int, resume + 1, max as int, MASK_L, end as int, hash),
        decreases max - end,
    {
        proof {
            lemma_search_step(buf, scan as int, end as int, max as int, MASK_L, hash);
        }
        hash = update_hash(hash, buffer[end]);
        if (hash & MASK_L) == 0 {
            return (end + 1, hash);
        }
        end += 1;
    }
    proof {
        assert(first_cut(buf, scan as int, end + 1, max as int, MASK_L) == None::<int>);
    }
    (max, hash)
}

/// What the streaming chunker needs next.
#[derive(Debug, Clone, Copy, PartialEq, Eq, Structural)]
pub enum StreamStep {
    /// The input is exhausted and every buffered byte has been emitted.
    Finished,
    /// Fewer than `max_size` bytes are buffered and the input may hold more.
    NeedsInput,
    /// A chunk can be cut from the buffered bytes.
    Ready,
}

/// The bytes of a read, if it succeeded.
pub open spec fn input_view(input: Option<&[u8]>) -> Option<Seq<u8>> {
    match input {
        Some(bytes) => Some(bytes@),
        None => None,
    }
}

/// What [`StreamingChunker::poll`] answers in state `sc`.
pub open spec fn spec_poll(sc: StreamingChunker) -> StreamStep {
    if sc.at_eof() && sc.position() >= sc.filled() {
        StreamStep::Finished
    } else if !sc.at_eof() && sc.filled() - sc.position() < sc.config_view().max_size {
        StreamStep::NeedsInput
    } else {
        StreamStep::Ready
    }
}

/// [`StreamingChunker::fill_buffer`] takes `before` to `after` on the read result `input`:
/// the unchunked bytes move to the front, the read bytes follow them, and a read of zero
/// bytes marks the end of the input.
pub open spec fn fill_post(before: StreamingChunker, input: Option<Seq<u8>>, after: StreamingChunker) -> bool {
    let old_buf = before.buffer_view();
    let kept = before.filled() - before.position();
    let moved = old_buf.subrange(before.position(), before.filled());
    &&& after.wf()
    &&& after.config_view() == before.config_view()
    &&& after.position() == 0
    &&& match input {
        Some(bytes) => {
            &&& after.buffer_view() == moved + bytes + old_buf.subrange(
                kept + bytes.len(),
                old_buf.len() as int,
            )
            &&& after.filled() == kept + bytes.len()
            &&& after.at_eof() == (before.at_eof() || bytes.len() == 0)
        },
        None => {
            &&& after.buffer_view() == moved + old_buf.subrange(kept, old_buf.len() as int)
            &&& after.filled() == kept
            &&& after.at_eof() == before.at_eof()
        },
    }
}

/// [`StreamingChunker::emit_chunk`] takes `before` to `after` returning `chunk`: `None`
/// when nothing is buffered, else the chunk cut at the position, which moves past it.
pub open spec fn emit_post(before: StreamingChunker, chunk: Option<Chunk>, after: StreamingChunker) -> bool {
    &&& after.wf()
    &&& after.buffer_view() == before.buffer_view()
    &&& after.filled() == before.filled()
    &&& after.at_eof() == before.at_eof()
    &&& after.config_view() == before.config_view()
    &&& before.position() >= before.filled() ==> chunk is None && after.position()
        == before.position()
    &&& before.position() < before.filled() ==> ({
        let (end, h) = spec_stream_chunk_end(
            before.buffer_view(),
            before.position(),
            before.filled(),
            before.config_view(),
        );
        &&& chunk is Some
        &&& chunk_describes(
            chunk->0,
            before.buffer_view(),
            before.position(),
            end,
            h,
            before.config_view().content_hash_mode,
        )
        &&& after.position() == end
    })
}


/// Content-defined chunking of a stream through a buffer of `2 * max_size` bytes.
pub struct StreamingChunker {
    buffer: Vec<u8>,
    pos: usize,
    len: usize,
    config: Config,
    eof: bool,
}

impl StreamingChunker {
    /// The buffer's contents.
    pub closed spec fn buffer_view(&self) -> Seq<u8> {
        self.buffer@
    }

    /// Start, within the buffer, of the next chunk.
    pub closed spec fn position(&self) -> int {
        self.pos as int
    }

    /// Number of buffer bytes holding input.
    pub closed spec fn filled(&self) -> int {
        self.len as int
    }

    /// The input has reported its end.
    pub closed spec fn at_eof(&self) -> bool {
        self.eof
    }

    /// The configuration in use.
    pub closed spec fn config_view(&self) -> Config {
        self.config
    }

    /// The position lies within the filled part of a buffer of `2 * max_size` bytes.
    pub closed spec fn wf(&self) -> bool {
        &&& self.pos <= self.len <= self.buffer@.len()
        &&& self.buffer@.len() == 2 * self.config.max_size
        &&& 2 * self.config.max_size <= usize::MAX
    }

    /// An empty chunker with a zeroed buffer of `2 * max_size` bytes.
    pub fn new(config: Config) -> (r: Self)
        requires
            2 * config.max_size <= usize::MAX,
        ensures
            r.wf(),
            r.buffer_view() == Seq::new((2 * config.max_size) as nat, |i: int| 0u8),
            r.position() == 0,
            r.filled() == 0,
            !r.at_eof(),
            r.config_view() == config,
    {
        let buffer = vec![0u8; config.max_size * 2];
        proof {
            assert(buffer@ =~= Seq::new((2 * config.max_size) as nat, |i: int| 0u8));
        }
        Self { buffer, pos: 0, len: 0, config, eof: false }
    }

    /// `Finished` once the input has ended and all buffered bytes are chunked;
    /// `NeedsInput` while fewer than `max_size` bytes are buffered and the input
    /// has not ended; `Ready` otherwise.
    pub fn poll(&self) -> (step: StreamStep)
        requires
            self.wf(),
        ensures
            step == spec_poll(*self),
    {
        if self.eof && self.pos >= self.len {
            return StreamStep::Finished;
        }
        if !self.eof && (self.len - self.pos) < self.config.max_size {
            StreamStep::NeedsInput
        } else {
            StreamStep::Ready
        }
    }

    /// Number of bytes a read may deliver to [`Self::fill_buffer`]: the buffer's free
    /// space once the unchunked bytes are moved to its front.
    pub fn read_capacity(&self) -> (n: usize)
        requires
            self.wf(),
        ensures
            n == self.buffer_view().len() - (self.filled() - self.position()),
    {
        self.buffer.len() - (self.len - self.pos)
    }

    /// Moves the unchunked bytes `buffer[pos..len]` to the front of the buffer, then
    /// appends the bytes of a read. A read of zero bytes marks the end of the input;
    /// `None` stands for a failed read, which appends nothing.
    pub fn fill_buffer(&mut self, input: Option<&[u8]>)
        requires
            old(self).wf(),
            input matches Some(bytes) ==> bytes@.len() <= old(self).buffer_view().len() - (
            old(self).filled() - old(self).position()),
        ensures
            fill_post(*old(self), input_view(input), *final(self)),
    {
        let ghost old_buf = self.buffer@;
        let ghost old_pos = self.pos as int;
        let ghost old_len = self.len as int;
        if self.pos > 0 {
            let mut i: usize = 0;
            let count = self.len - self.pos;
            while i < count
                invariant
                    count == old_len - old_pos,
                    self.pos == old_pos,
                    self.len == old_len,
                    self.config == old(self).config,
                    self.eof == old(self).eof,
                    self.buffer@.len() == old_buf.len(),
                    old_pos <= old_len <= old_buf.len(),
                    i <= count,
                    forall|j: int| 0 <= j < i ==> #[trigger] self.buffer@[j] == old_buf[old_pos + j],
                    forall|j: int| i <= j < old_buf.len() ==> #[trigger] self.buffer@[j] == old_buf[j],
                decreases count - i,
            {
                let b = self.buffer[self.pos + i];
                self.buffer.set(i, b);
                i += 1;
            }
            self.len = self.len - self.pos;
            self.pos = 0;
        }
        proof {
            let kept = old_len - old_pos;
            assert(self.buffer@ =~= old_buf.subrange(old_pos, old_len) + old_buf.subrange(
                kept,
                old_buf.len() as int,
            ));
        }
        if let Some(bytes) = input {
            let ghost mid = self.buffer@;
            let ghost kept = old_len - old_pos;
            let n = bytes.len();
            let mut i: usize = 0;
            while i < n
                invariant
                    n == bytes@.len(),
                    self.len == kept,
                    kept + n <= self.buffer@.len(),
                    self.buffer@.len() == 2 * self.config.max_size,
                    2 * self.config.max_size <= usize::MAX,
                    self.pos == 0,
                    self.config == old(self).config,
                    self.eof == old(self).eof,
                    self.buffer@.len() == mid.len(),
                    i <= n,
                    forall|j: int| 0 <= j < i ==> #[trigger] self.buffer@[self.len + j] == bytes@[j],
                    forall|j: int|
                        0 <= j < self.len || self.len + i <= j < mid.len() ==> #[trigger] self.buffer@[j]
                            == mid[j],
                decreases n - i,
            {
                self.buffer.set(self.len + i, bytes[i]);
                i += 1;
            }
            proof {
                let target = old_buf.subrange(old_pos, old_len) + bytes@ + old_buf.subrange(
                    kept + n,
                    old_buf.len() as int,
                );
                assert forall|j: int| 0 <= j < mid.len() implies #[trigger] self.buffer@[j]
                    == target[j] by {
                    if kept <= j < kept + n {
                        assert(self.buffer@[self.len + (j - kept)] == bytes@[j - kept]);
                    }
                }
                assert(self.buffer@ =~= old_buf.subrange(old_pos, old_len) + bytes@
                    + old_buf.subrange(kept + n, old_buf.len() as int));
            }
            if n == 0 {
                self.eof = true;
            }
            self.len = self.len + n;
        }
    }

    /// The offsets that [`Self::emit_chunk`] computes fit in `usize`.
    pub fn emit_fits(&self) -> (ok: bool)
        requires
            self.wf(),
        ensures
            ok == stream_chunk_fits(self.position(), self.filled(), self.config_view()),
    {
        self.len - self.pos <= self.config.min_size || (self.config.max_size <= usize::MAX
            - self.pos && self.config.avg_size <= usize::MAX - self.pos)
    }

    /// The next chunk cut from the buffered bytes, or `None` when none are buffered.
    /// The chunk's offset is its position in the buffer. Called only once the input has
    /// ended or at least `max_size` bytes are buffered, so that how reads split the
    /// stream does not move the boundaries.
    pub fn emit_chunk(&mut self) -> (chunk: Option<Chunk>)
        requires
            old(self).wf(),
            spec_poll(*old(self)) != StreamStep::NeedsInput,
            stream_chunk_fits(old(self).position(), old(self).filled(), old(self).config_view()),
        ensures
            emit_post(*old(self), chunk, *final(self)),
    {
        let remaining = self.len - self.pos;
        if remaining == 0 {
            return None;
        }
        let start = self.pos;
        let (end, hash) = stream_chunk_end(self.buffer.as_slice(), start, self.len, self.config);
        proof {
            lemma_stream_chunk_end_bounds(self.buffer@, start as int, self.len as int, self.config);
        }
        let length = end - start;
        let chunk_data = slice_subrange(self.buffer.as_slice(), start, end);
        let content_hash = content_hash_of(self.config.content_hash_mode, chunk_data);
        self.pos = end;
        Some(Chunk { offset: start, length, rolling_hash: hash, content_hash })
    }
}

/// The streaming chunk at `start` ends inside the buffered bytes, past `start` when
/// `max_size` is positive. With `min_size <= max_size` it is at most `max_size` long,
/// and at least `min_size` long unless it ends the buffered bytes.
pub proof fn lemma_stream_chunk_end_bounds(buf: Seq<u8>, start: int, len: int, config: Config)
    requires
        0 <= start < len,
    ensures
        ({
            let (end, h) = spec_stream_chunk_end(buf, start, len, config);
            &&& start <= end <= len
            &&& config.max_size > 0 ==> start < end
            &&& config.min_size <= config.max_size ==> end - start <= config.max_size
            &&& config.min_size <= config.max_size ==> (end - start >= config.min_size || end
                == len)
        }),
{
    if len - start > config.min_size {
        let scan = start + config.min_size;
        let max = min_int(start + config.max_size, len);
        let limit_s = min_int(start + config.avg_size, max);
        let resume = max_int(scan, limit_s);
        lemma_first_cut_bounds(buf, scan, scan + 1, limit_s, MASK_S);
        lemma_first_cut_bounds(buf, scan, resume + 1, max, MASK_L);
    }
}

/// Where a streaming chunk ends, in terms of the cut-points of the one gear-hash scan
/// begun at `scan = start + min_size`.
///
/// With at most `min_size` bytes buffered past `start`, they form the chunk, hash 0.
/// Otherwise let `max_end = min(start + max_size, len)`, `s_end = min(start + avg_size,
/// max_end)` and `l_from = max(scan, s_end)`. The chunk ends in `[scan, max_end]`, past
/// `scan` when that range is not empty. No `MASK_S` cut-point of `(scan, s_end]` and no
/// `MASK_L` cut-point of `(l_from, max_end]` comes before its end. An end before
/// `max_end` is a `MASK_S` cut-point of `(scan, s_end]` or a `MASK_L` cut-point of
/// `(l_from, max_end]`: only a chunk with no cut-point at all is cut at `max_end`
/// short of one. Its rolling hash is the hash of the bytes scanned, `buf[scan..end)`.
pub proof fn lemma_stream_chunk_end_cuts(buf: Seq<u8>, start: int, len: int, config: Config)
    requires
        0 <= start < len,
        config.min_size <= config.max_size,
    ensures
        ({
            let (end, h) = spec_stream_chunk_end(buf, start, len, config);
            let scan = start + config.min_size;
            let max_end = min_int(start + config.max_size, len);
            let s_end = min_int(start + config.avg_size, max_end);
            let l_from = max_int(scan, s_end);
            &&& len - start <= config.min_size ==> end == len && h == 0
            &&& len - start > config.min_size ==> scan <= end <= max_end
            &&& len - start > config.min_size && scan < max_end ==> scan < end
            &&& len - start > config.min_size ==> forall|q: int|
                scan < q < end && q <= s_end ==> !#[trigger] is_cut(buf, scan, q, MASK_S)
            &&& len - start > config.min_size ==> forall|q: int|
                l_from < q < end ==> !#[trigger] is_cut(buf, scan, q, MASK_L)
            &&& len - start > config.min_size && end < max_end ==> ((end <= s_end && is_cut(
                buf,
                scan,
                end,
                MASK_S,
            )) || (l_from < end && is_cut(buf, scan, end, MASK_L)))
            &&& len - start > config.min_size ==> h == window_hash(buf, scan, end)
        }),
{
    if len - start > config.min_size {
        let scan = start + config.min_size;
        let max_end = min_int(start + config.max_size, len);
        let s_end = min_int(start + config.avg_size, max_end);
        let l_from = max_int(scan, s_end);
        lemma_first_cut_bounds(buf, scan, scan + 1, s_end, MASK_S);
        lemma_first_cut_bounds(buf, scan, l_from + 1, max_end, MASK_L);
    }
}


/// Position within the stream of the first byte buffered past the chunker's position,
/// when `consumed` stream bytes have been emitted as chunks.
pub open spec fn delivered(sc: StreamingChunker, consumed: int) -> int {
    consumed + (sc.filled() - sc.position())
}

/// `sc` has emitted the first `consumed` bytes of `stream` as chunks, and its unchunked
/// bytes are the stream bytes that follow them.
pub open spec fn tracks(sc: StreamingChunker, stream: Seq<u8>, consumed: int) -> bool {
    &&& sc.wf()
    &&& 0 <= consumed
    &&& delivered(sc, consumed) <= stream.len()
    &&& sc.buffer_view().subrange(sc.position(), sc.filled()) == stream.subrange(
        consumed,
        delivered(sc, consumed),
    )
}

impl StreamingChunker {
    /// A well-formed chunker's position lies within the filled part of its buffer of
    /// `2 * max_size` bytes.
    pub proof fn lemma_wf_bounds(&self)
        requires
            self.wf(),
        ensures
            0 <= self.position() <= self.filled() <= self.buffer_view().len(),
            self.buffer_view().len() == 2 * self.config_view().max_size,
    {
    }
}

/// A new chunker tracks any stream, with nothing emitted.
pub proof fn lemma_new_tracks(sc: StreamingChunker, stream: Seq<u8>)
    requires
        sc.wf(),
        sc.position() == 0,
        sc.filled() == 0,
    ensures
        tracks(sc, stream, 0),
{
    assert(sc.buffer_view().subrange(0, 0) =~= stream.subrange(0, 0));
}

/// Handing `fill_buffer` the next stream bytes keeps the chunker tracking the stream;
/// a failed read keeps it tracking too. The buffer keeps its size of `2 * max_size`.
pub proof fn lemma_fill_tracks(
    before: StreamingChunker,
    input: Option<Seq<u8>>,
    after: StreamingChunker,
    stream: Seq<u8>,
    consumed: int,
)
    requires
        tracks(before, stream, consumed),
        fill_post(before, input, after),
        input matches Some(bytes) ==> delivered(before, consumed) + bytes.len() <= stream.len()
            && bytes == stream.subrange(
            delivered(before, consumed),
            delivered(before, consumed) + bytes.len(),
        ),
    ensures
        tracks(after, stream, consumed),
        after.buffer_view().len() == before.buffer_view().len(),
        delivered(after, consumed) == delivered(before, consumed) + match input {
            Some(bytes) => bytes.len() as int,
            None => 0,
        },
{
    let old_buf = before.buffer_view();
    let kept = before.filled() - before.position();
    let moved = old_buf.subrange(before.position(), before.filled());
    let d = delivered(before, consumed);
    match input {
        Some(bytes) => {
            assert(after.buffer_view().subrange(0, after.filled()) =~= moved + bytes);
            assert(stream.subrange(consumed, d + bytes.len()) =~= stream.subrange(consumed, d)
                + stream.subrange(d, d + bytes.len()));
        },
        None => {
            assert(after.buffer_view().subrange(0, after.filled()) =~= moved);
        },
    }
}

/// Emitting keeps the chunker tracking the stream: the chunk is the next stretch of
/// stream bytes, its content hash is taken over exactly those stream bytes, it is
/// non-empty when `max_size` is positive and at most `max_size` long when
/// `min_size <= max_size`. `None` comes only when nothing is buffered, and leaves the
/// position where it was.
pub proof fn lemma_emit_tracks(
    before: StreamingChunker,
    chunk: Option<Chunk>,
    after: StreamingChunker,
    stream: Seq<u8>,
    consumed: int,
)
    requires
        tracks(before, stream, consumed),
        emit_post(before, chunk, after),
    ensures
        delivered(after, consumed + match chunk {
            Some(c) => c.length as int,
            None => 0,
        }) == delivered(before, consumed),
        tracks(
            after,
            stream,
            consumed + match chunk {
                Some(c) => c.length as int,
                None => 0,
            },
        ),
        chunk is None <==> before.position() >= before.filled(),
        chunk is None ==> after.position() == before.position(),
        chunk matches Some(c) ==> {
            &&& c.content_hash@ == crate::chunk::content_digest(
                before.config_view().content_hash_mode,
                stream.subrange(consumed, consumed + c.length),
            )
            &&& before.config_view().max_size > 0 ==> c.length >= 1
            &&& before.config_view().min_size <= before.config_view().max_size ==> c.length
                <= before.config_view().max_size
        },
{
    if before.position() < before.filled() {
        let c = chunk->0;
        let buf = before.buffer_view();
        let p = before.position();
        lemma_stream_chunk_end_bounds(buf, p, before.filled(), before.config_view());
        let (end, h) = spec_stream_chunk_end(buf, p, before.filled(), before.config_view());
        let d = delivered(before, consumed);
        let window = buf.subrange(p, before.filled());
        assert(window == stream.subrange(consumed, d));
        assert(buf.subrange(p, end) =~= window.subrange(0, end - p));
        assert(stream.subrange(consumed, consumed + c.length) =~= stream.subrange(consumed, d).subrange(
            0,
            end - p,
        ));
        assert(buf.subrange(end, before.filled()) =~= window.subrange(end - p, d - consumed));
        assert(stream.subrange(consumed + c.length, d) =~= stream.subrange(consumed, d).subrange(
            end - p,
            d - consumed,
        ));
    }
}

/// A read is offered only while the input has not ended and fewer than `max_size`
/// bytes are buffered; the read may then deliver more than `max_size` and at most
/// `2 * max_size` bytes.
pub proof fn lemma_read_window(sc: StreamingChunker)
    requires
        sc.wf(),
        spec_poll(sc) == StreamStep::NeedsInput,
    ensures
        !sc.at_eof(),
        sc.filled() - sc.position() < sc.config_view().max_size,
        sc.config_view().max_size < sc.buffer_view().len() - (sc.filled() - sc.position()) <= 2
            * sc.config_view().max_size,
{
}

/// Once the input has ended and every buffered byte is emitted, the chunker reports
/// `Finished` and emitting gives `None` and changes nothing, so it stays finished.
pub proof fn lemma_finished_stays(sc: StreamingChunker, chunk: Option<Chunk>, after: StreamingChunker)
    requires
        sc.wf(),
        sc.at_eof(),
        sc.position() >= sc.filled(),
        emit_post(sc, chunk, after),
    ensures
        spec_poll(sc) == StreamStep::Finished,
        chunk is None,
        spec_poll(after) == StreamStep::Finished,
        after.position() == sc.position(),
        after.filled() == sc.filled(),
        after.buffer_view() == sc.buffer_view(),
{
}

/// When the whole stream has been delivered and the input has ended, the chunker is
/// finished exactly when every stream byte has been emitted in chunks.
pub proof fn lemma_finished_covers_stream(sc: StreamingChunker, stream: Seq<u8>, consumed: int)
    requires
        tracks(sc, stream, consumed),
        sc.at_eof(),
        delivered(sc, consumed) == stream.len(),
    ensures
        (spec_poll(sc) == StreamStep::Finished) <==> consumed == stream.len(),
{
}


// ---------------------------------------------------------------------------
// Whole runs of the streaming chunker
// ---------------------------------------------------------------------------

/// The chunks of a whole stream from `pos` on, as `(stream offset, end, rolling hash)`,
/// cut as the streaming chunker cuts them when it sees the rest of the stream.
#[verifier::opaque]
pub open spec fn stream_spans(stream: Seq<u8>, pos: int, config: Config) -> Seq<(int, int, u64)>
    decreases stream.len() - pos,
{
    if pos < 0 || pos >= stream.len() {
        seq![]
    } else {
        let (end, h) = spec_stream_chunk_end(stream, pos, stream.len() as int, config);
        if end <= pos || end > stream.len() {
            seq![]
        } else {
            seq![(pos, end, h)] + stream_spans(stream, end, config)
        }
    }
}

/// Chunk `c` is the stream span `span`: same length and rolling hash, and the content
/// hash of the span's stream bytes.
pub open spec fn chunk_matches_span(
    c: Chunk,
    span: (int, int, u64),
    stream: Seq<u8>,
    mode: ContentHashMode,
) -> bool {
    &&& c.length == span.1 - span.0
    &&& c.rolling_hash == span.2
    &&& c.content_hash@ == content_digest(mode, stream.subrange(span.0, span.1))
}

/// One step of a run: `(emit, read, chunk)`. An emit step calls `emit_chunk` and
/// returns `chunk`; any other step calls `fill_buffer` with the read result `read`.
pub type StreamEvent = (bool, Option<Seq<u8>>, Option<Chunk>);

/// The chunks emitted by the steps of a run, in order.
pub open spec fn run_chunks(events: Seq<StreamEvent>) -> Seq<Chunk>
    decreases events.len(),
{
    if events.len() == 0 {
        seq![]
    } else {
        let last = events.last();
        run_chunks(events.drop_last()) + if last.0 && last.2 is Some {
            seq![last.2->0]
        } else {
            seq![]
        }
    }
}

/// A chunker as [`StreamingChunker::new`] leaves it.
pub open spec fn is_initial(sc: StreamingChunker, config: Config) -> bool {
    &&& sc.wf()
    &&& sc.position() == 0
    &&& sc.filled() == 0
    &&& !sc.at_eof()
    &&& sc.config_view() == config
}

/// A step allowed to a driver of the chunker over `stream`, when `consumed` bytes have
/// been emitted: an emit only when `poll` does not ask for input; a fill with the next
/// stream bytes (within the read capacity, and zero bytes only at the end of the stream)
/// or with a failed read.
pub open spec fn valid_step(
    before: StreamingChunker,
    ev: StreamEvent,
    after: StreamingChunker,
    stream: Seq<u8>,
    consumed: int,
) -> bool {
    if ev.0 {
        &&& spec_poll(before) != StreamStep::NeedsInput
        &&& emit_post(before, ev.2, after)
    } else {
        &&& match ev.1 {
            Some(bytes) => {
                let d = delivered(before, consumed);
                &&& bytes.len() <= before.buffer_view().len() - (before.filled()
                    - before.position())
                &&& d + bytes.len() <= stream.len()
                &&& bytes == stream.subrange(d, d + bytes.len())
                &&& bytes.len() == 0 ==> d == stream.len()
            },
            None => true,
        }
        &&& fill_post(before, ev.1, after)
    }
}

/// `states[i + 1]` follows from `states[i]` by step `events[i]`, starting from a new
/// chunker.
pub open spec fn valid_run(
    states: Seq<StreamingChunker>,
    events: Seq<StreamEvent>,
    stream: Seq<u8>,
    config: Config,
) -> bool {
    &&& states.len() == events.len() + 1
    &&& is_initial(states[0], config)
    &&& forall|i: int|
        0 <= i < events.len() ==> valid_step(
            states[i],
            #[trigger] events[i],
            states[i + 1],
            stream,
            length_sum(run_chunks(events.take(i))),
        )
}

/// What holds after each step of a valid run.
spec fn run_inv(sc: StreamingChunker, cs: Seq<Chunk>, stream: Seq<u8>, config: Config) -> bool {
    let spans = stream_spans(stream, 0, config);
    let consumed = length_sum(cs);
    &&& tracks(sc, stream, consumed)
    &&& sc.config_view() == config
    &&& sc.at_eof() ==> delivered(sc, consumed) == stream.len()
    &&& cs.len() <= spans.len()
    &&& forall|i: int|
        0 <= i < cs.len() ==> chunk_matches_span(
            #[trigger] cs[i],
            spans[i],
            stream,
            config.content_hash_mode,
        )
    &&& spans.subrange(cs.len() as int, spans.len() as int) == stream_spans(stream, consumed, config)
}

/// The stream spans from `pos` on are the span at `pos` followed by the later ones.
proof fn lemma_stream_spans_unfold(stream: Seq<u8>, pos: int, config: Config)
    requires
        0 <= pos < stream.len(),
        config.max_size > 0,
    ensures
        ({
            let (end, h) = spec_stream_chunk_end(stream, pos, stream.len() as int, config);
            &&& pos < end <= stream.len()
            &&& stream_spans(stream, pos, config) == seq![(pos, end, h)] + stream_spans(
                stream,
                end,
                config,
            )
        }),
{
    reveal(stream_spans);
    lemma_stream_chunk_end_bounds(stream, pos, stream.len() as int, config);
}

/// The stream spans from the end of the stream on are empty.
proof fn lemma_stream_spans_end(stream: Seq<u8>, config: Config)
    ensures
        stream_spans(stream, stream.len() as int, config).len() == 0,
{
    reveal(stream_spans);
}

/// A chunk emitted while the chunker tracks the stream, once the input has ended or
/// `max_size` bytes are buffered, is the stream span at the consumed position.
proof fn lemma_emit_canonical(
    before: StreamingChunker,
    chunk: Option<Chunk>,
    after: StreamingChunker,
    stream: Seq<u8>,
    consumed: int,
    config: Config,
)
    requires
        config.min_size <= config.avg_size <= config.max_size,
        config.max_size > 0,
        before.config_view() == config,
        tracks(before, stream, consumed),
        before.at_eof() ==> delivered(before, consumed) == stream.len(),
        spec_poll(before) != StreamStep::NeedsInput,
        before.position() < before.filled(),
        emit_post(before, chunk, after),
    ensures
        chunk is Some,
        consumed < stream.len(),
        chunk_matches_span(
            chunk->0,
            (
                consumed,
                spec_stream_chunk_end(stream, consumed, stream.len() as int, config).0,
                spec_stream_chunk_end(stream, consumed, stream.len() as int, config).1,
            ),
            stream,
            config.content_hash_mode,
        ),
{
    let buf = before.buffer_view();
    let p = before.position();
    let l = before.filled();
    let d = delivered(before, consumed);
    before.lemma_wf_bounds();
    let c = chunk->0;
    let (end_s, h_s) = spec_stream_chunk_end(stream, consumed, stream.len() as int, config);
    let (end_b, h_b) = spec_stream_chunk_end(buf, p, l, config);
    lemma_stream_chunk_end_bounds(buf, p, l, config);
    if !before.at_eof() {
        let mx = config.max_size as int;
        assert(buf.subrange(p, p + mx) =~= buf.subrange(p, l).subrange(0, mx));
        assert(stream.subrange(consumed, consumed + mx) =~= stream.subrange(consumed, d).subrange(
            0,
            mx,
        ));
    }
    lemma_stream_chunk_local(buf, p, l, stream, consumed, stream.len() as int, config);
    assert(buf.subrange(p, end_b) =~= buf.subrange(p, l).subrange(0, end_b - p));
    assert(stream.subrange(consumed, end_s) =~= stream.subrange(consumed, d).subrange(
        0,
        end_s - consumed,
    ));
}

/// The chunk list of a run grows by the next stream span.
proof fn lemma_chunks_extend(
    cs: Seq<Chunk>,
    c: Chunk,
    stream: Seq<u8>,
    config: Config,
)
    requires
        config.max_size > 0,
        cs.len() <= stream_spans(stream, 0, config).len(),
        forall|i: int|
            0 <= i < cs.len() ==> chunk_matches_span(
                #[trigger] cs[i],
                stream_spans(stream, 0, config)[i],
                stream,
                config.content_hash_mode,
            ),
        stream_spans(stream, 0, config).subrange(
            cs.len() as int,
            stream_spans(stream, 0, config).len() as int,
        ) == stream_spans(stream, length_sum(cs), config),
        0 <= length_sum(cs) < stream.len(),
        chunk_matches_span(
            c,
            (
                length_sum(cs),
                spec_stream_chunk_end(stream, length_sum(cs), stream.len() as int, config).0,
                spec_stream_chunk_end(stream, length_sum(cs), stream.len() as int, config).1,
            ),
            stream,
            config.content_hash_mode,
        ),
    ensures
        ({
            let cs2 = cs.push(c);
            let spans = stream_spans(stream, 0, config);
            &&& length_sum(cs2) == length_sum(cs) + c.length
            &&& cs2.len() <= spans.len()
            &&& forall|i: int|
                0 <= i < cs2.len() ==> chunk_matches_span(
                    #[trigger] cs2[i],
                    spans[i],
                    stream,
                    config.content_hash_mode,
                )
            &&& spans.subrange(cs2.len() as int, spans.len() as int) == stream_spans(
                stream,
                length_sum(cs2),
                config,
            )
        }),
{
    let consumed = length_sum(cs);
    let spans = stream_spans(stream, 0, config);
    lemma_stream_spans_unfold(stream, consumed, config);
    let (end_s, h_s) = spec_stream_chunk_end(stream, consumed, stream.len() as int, config);
    let cs2 = cs.push(c);
    assert(cs2.drop_last() =~= cs);
    assert(cs2.last() == c);
    let tail = spans.subrange(cs.len() as int, spans.len() as int);
    assert(tail.len() >= 1);
    assert(spans.len() > cs.len());
    assert(tail[0] == (consumed, end_s, h_s));
    assert(spans[cs.len() as int] == tail[0]);
    assert forall|i: int| 0 <= i < cs2.len() implies chunk_matches_span(
        #[trigger] cs2[i],
        spans[i],
        stream,
        config.content_hash_mode,
    ) by {
        if i < cs.len() {
            assert(cs2[i] == cs[i]);
        }
    }
    assert(spans.subrange(cs2.len() as int, spans.len() as int) =~= tail.drop_first());
}

/// An emit step of a valid run cuts the next stream span.
proof fn lemma_run_emit(
    before: StreamingChunker,
    chunk: Option<Chunk>,
    after: StreamingChunker,
    cs: Seq<Chunk>,
    stream: Seq<u8>,
    config: Config,
)
    requires
        config.min_size <= config.avg_size <= config.max_size,
        config.max_size > 0,
        run_inv(before, cs, stream, config),
        spec_poll(before) != StreamStep::NeedsInput,
        emit_post(before, chunk, after),
    ensures
        run_inv(
            after,
            cs + if chunk is Some {
                seq![chunk->0]
            } else {
                seq![]
            },
            stream,
            config,
        ),
{
    let consumed = length_sum(cs);
    lemma_emit_tracks(before, chunk, after, stream, consumed);
    if before.position() < before.filled() {
        lemma_emit_canonical(before, chunk, after, stream, consumed, config);
        let c = chunk->0;
        lemma_chunks_extend(cs, c, stream, config);
        assert(cs + seq![c] =~= cs.push(c));
    } else {
        assert(cs + seq![] =~= cs);
    }
}

/// A fill step of a valid run keeps the run invariant.
proof fn lemma_run_fill(
    before: StreamingChunker,
    input: Option<Seq<u8>>,
    after: StreamingChunker,
    cs: Seq<Chunk>,
    stream: Seq<u8>,
    config: Config,
)
    requires
        run_inv(before, cs, stream, config),
        valid_step(before, (false, input, None), after, stream, length_sum(cs)),
    ensures
        run_inv(after, cs, stream, config),
{
    lemma_fill_tracks(before, input, after, stream, length_sum(cs));
}

/// The run invariant holds after the first `k` steps of a valid run.
proof fn lemma_run_prefix(
    states: Seq<StreamingChunker>,
    events: Seq<StreamEvent>,
    stream: Seq<u8>,
    config: Config,
    k: int,
)
    requires
        config.min_size <= config.avg_size <= config.max_size,
        config.max_size > 0,
        valid_run(states, events, stream, config),
        0 <= k <= events.len(),
    ensures
        run_inv(states[k], run_chunks(events.take(k)), stream, config),
    decreases k,
{
    if k == 0 {
        assert(events.take(0) =~= Seq::<StreamEvent>::empty());
        lemma_new_tracks(states[0], stream);
        let spans = stream_spans(stream, 0, config);
        assert(spans.subrange(0, spans.len() as int) =~= spans);
    } else {
        lemma_run_prefix(states, events, stream, config, k - 1);
        let cs = run_chunks(events.take(k - 1));
        let ev = events[k - 1];
        assert(events.take(k).drop_last() =~= events.take(k - 1));
        assert(events.take(k).last() == ev);
        assert(valid_step(states[k - 1], ev, states[k], stream, length_sum(cs)));
        if ev.0 {
            lemma_run_emit(states[k - 1], ev.2, states[k], cs, stream, config);
        } else {
            assert(cs + seq![] =~= cs);
            assert(ev == (false, ev.1, ev.2));
            lemma_run_fill(states[k - 1], ev.1, states[k], cs, stream, config);
        }
    }
}

/// A whole run of the streaming chunker over `stream`, with any split of the stream
/// into reads, emits the stream spans in order: each emitted chunk has the length,
/// rolling hash and content hash of the next span, so no stream byte is lost or
/// emitted twice. When the run ends with the chunker finished, it has emitted every
/// span and their lengths add up to the stream's length.
pub proof fn lemma_stream_run(
    states: Seq<StreamingChunker>,
    events: Seq<StreamEvent>,
    stream: Seq<u8>,
    config: Config,
)
    requires
        config.min_size <= config.avg_size <= config.max_size,
        config.max_size > 0,
        valid_run(states, events, stream, config),
    ensures
        ({
            let cs = run_chunks(events);
            let spans = stream_spans(stream, 0, config);
            &&& cs.len() <= spans.len()
            &&& forall|i: int|
                0 <= i < cs.len() ==> chunk_matches_span(
                    #[trigger] cs[i],
                    spans[i],
                    stream,
                    config.content_hash_mode,
                )
            &&& tracks(states.last(), stream, length_sum(cs))
            &&& spec_poll(states.last()) == StreamStep::Finished ==> length_sum(cs) == stream.len()
                && cs.len() == spans.len()
        }),
{
    let n = events.len() as int;
    lemma_run_prefix(states, events, stream, config, n);
    assert(events.take(n) =~= events);
    let cs = run_chunks(events);
    let sc = states[n];
    assert(states.last() == sc);
    assert(run_inv(sc, cs, stream, config));
    lemma_finished_end(sc, cs, stream, config);
}

/// A finished chunker in a valid run has emitted every stream span.
proof fn lemma_finished_end(sc: StreamingChunker, cs: Seq<Chunk>, stream: Seq<u8>, config: Config)
    requires
        run_inv(sc, cs, stream, config),
    ensures
        spec_poll(sc) == StreamStep::Finished ==> length_sum(cs) == stream.len() && cs.len()
            == stream_spans(stream, 0, config).len(),
{
    if spec_poll(sc) == StreamStep::Finished {
        let spans = stream_spans(stream, 0, config);
        lemma_stream_spans_end(stream, config);
        assert(length_sum(cs) == stream.len());
        assert(spans.subrange(cs.len() as int, spans.len() as int).len() == 0);
    }
}

/// Chunk boundaries are reproducible: two finished runs over the same stream, whatever
/// their read splits, emit chunks equal in length, rolling hash and content hash.
pub proof fn lemma_stream_runs_agree(
    states1: Seq<StreamingChunker>,
    events1: Seq<StreamEvent>,
    states2: Seq<StreamingChunker>,
    events2: Seq<StreamEvent>,
    stream: Seq<u8>,
    config: Config,
)
    requires
        config.min_size <= config.avg_size <= config.max_size,
        config.max_size > 0,
        valid_run(states1, events1, stream, config),
        valid_run(states2, events2, stream, config),
        spec_poll(states1.last()) == StreamStep::Finished,
        spec_poll(states2.last()) == StreamStep::Finished,
    ensures
        run_chunks(events1).len() == run_chunks(events2).len(),
        forall|i: int|
            0 <= i < run_chunks(events1).len() ==> {
                &&& (#[trigger] run_chunks(events1)[i]).length == run_chunks(events2)[i].length
                &&& run_chunks(events1)[i].rolling_hash == run_chunks(events2)[i].rolling_hash
                &&& run_chunks(events1)[i].content_hash == run_chunks(events2)[i].content_hash
            },
{
    lemma_stream_run(states1, events1, stream, config);
    lemma_stream_run(states2, events2, stream, config);
    let c1 = run_chunks(events1);
    let c2 = run_chunks(events2);
    let spans = stream_spans(stream, 0, config);
    assert forall|i: int| 0 <= i < c1.len() implies {
        &&& (#[trigger] c1[i]).length == c2[i].length
        &&& c1[i].rolling_hash == c2[i].rolling_hash
        &&& c1[i].content_hash == c2[i].content_hash
    } by {
        assert(chunk_matches_span(c1[i], spans[i], stream, config.content_hash_mode));
        assert(chunk_matches_span(c2[i], spans[i], stream, config.content_hash_mode));
        assert(c1[i].content_hash@ =~= c2[i].content_hash@);
    }
}

/// The stream spans from `pos` on tile `stream[pos..]`: each is between 1 and
/// `max_size` bytes long and at least `min_size` unless it ends the stream; the first
/// starts at `pos`, each starts where the one before ends, and the last ends the stream.
pub proof fn lemma_stream_spans_tile(stream: Seq<u8>, pos: int, config: Config)
    requires
        0 <= pos <= stream.len(),
        config.min_size <= config.max_size,
        config.max_size > 0,
    ensures
        ({
            let s = stream_spans(stream, pos, config);
            &&& (s.len() == 0 <==> pos == stream.len())
            &&& s.len() > 0 ==> s[0].0 == pos && s.last().1 == stream.len()
            &&& forall|i: int|
                0 <= i < s.len() ==> 1 <= #[trigger] s[i].1 - s[i].0 <= config.max_size
            &&& forall|i: int|
                0 <= i < s.len() ==> #[trigger] s[i].1 - s[i].0 >= config.min_size || s[i].1
                    == stream.len()
            &&& forall|i: int| 0 <= i < s.len() - 1 ==> #[trigger] s[i].1 == s[i + 1].0
        }),
    decreases stream.len() - pos,
{
    reveal(stream_spans);
    if pos < stream.len() {
        lemma_stream_spans_unfold(stream, pos, config);
        lemma_stream_chunk_end_bounds(stream, pos, stream.len() as int, config);
        let (end, h) = spec_stream_chunk_end(stream, pos, stream.len() as int, config);
        lemma_stream_spans_tile(stream, end, config);
        let s = stream_spans(stream, pos, config);
        let rest = stream_spans(stream, end, config);
        assert forall|i: int| 0 < i < s.len() implies s[i] == rest[i - 1] by {}
        if rest.len() > 0 {
            assert(s.last() == rest.last());
        }
        assert forall|i: int| 0 <= i < s.len() - 1 implies #[trigger] s[i].1 == s[i + 1].0 by {
            if i > 0 {
                assert(s[i] == rest[i - 1]);
                assert(s[i + 1] == rest[i]);
            }
        }
    }
}

} // verus!
