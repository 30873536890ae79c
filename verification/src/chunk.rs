//! Chunks, the chunker interface, and FastCDC over in-memory data.
//!
//! A chunk starting at `start` is at least `min_size` bytes long unless the data
//! ends first. Past `start + min_size` the gear hash is scanned with the stricter
//! mask `MASK_S` up to `start + avg_size`, then with the looser mask `MASK_L` up
//! to `start + max_size` (normalized chunking).
use vstd::prelude::*;
use vstd::slice::slice_subrange;
use crate::config::{Config, ContentHashMode};
use crate::gear::{
    find_cutpoint, first_cut, is_cut, lemma_cutpoint_is_first_cut, lemma_cutpoint_local,
    lemma_first_cut_bounds, lemma_first_cut_shift, lemma_window_empty, lemma_window_hash_shift,
    spec_cutpoint, window_hash,
};

verus! {

/// Mask used between the minimum and the average chunk size.
pub const MASK_S: u64 = 0x0003590703530000;

/// Mask used between the average and the maximum chunk size.
pub const MASK_L: u64 = 0x0000d90003530000;

/// A chunk of data identified by CDC.
#[derive(Debug, Clone, Copy, PartialEq, Eq)]
pub struct Chunk {
    pub offset: usize,
    pub length: usize,
    pub rolling_hash: u64,
    pub content_hash: [u8; 32],
}

/// The BLAKE3 digest of a byte sequence.
pub uninterp spec fn blake3_digest(data: Seq<u8>) -> Seq<u8>;

/// Calls `blake3::hash` on `data` and returns the 32 bytes of the digest.
/// Claimed: the result is [`blake3_digest`] of the input bytes, a function of them alone.
#[verifier::external_body]
pub(crate) fn blake3_hash(data: &[u8]) -> (digest: [u8; 32])
    ensures
        digest@ == blake3_digest(data@),
{
    *blake3::hash(data).as_bytes()
}

/// The content hash recorded for a chunk with bytes `bytes`: their BLAKE3 digest, or 32
/// zero bytes when content hashing is skipped.
pub open spec fn content_digest(mode: ContentHashMode, bytes: Seq<u8>) -> Seq<u8> {
    match mode {
        ContentHashMode::Blake3 => blake3_digest(bytes),
        ContentHashMode::Skip => Seq::new(32, |i: int| 0u8),
    }
}

/// The content hash of `bytes` under `mode`; BLAKE3 runs only in `Blake3` mode.
pub fn content_hash_of(mode: ContentHashMode, bytes: &[u8]) -> (digest: [u8; 32])
    ensures
        digest@ == content_digest(mode, bytes@),
{
    match mode {
        ContentHashMode::Blake3 => blake3_hash(bytes),
        ContentHashMode::Skip => {
            let zeros = [0u8; 32];
            proof {
                assert(zeros@ =~= Seq::new(32, |i: int| 0u8));
            }
            zeros
        },
    }
}

/// `c` is the chunk `data[start..end)` found with final rolling hash `hash`, its content
/// hash taken under `mode`.
pub open spec fn chunk_describes(
    c: Chunk,
    data: Seq<u8>,
    start: int,
    end: int,
    hash: u64,
    mode: ContentHashMode,
) -> bool {
    &&& c.offset == start
    &&& c.length == end - start
    &&& c.rolling_hash == hash
    &&& c.content_hash@ == content_digest(mode, data.subrange(start, end))
}

/// The smaller of two integers.
pub open spec fn min_int(a: int, b: int) -> int {
    if a <= b {
        a
    } else {
        b
    }
}

/// The larger of two integers.
pub open spec fn max_int(a: int, b: int) -> int {
    if a >= b {
        a
    } else {
        b
    }
}

/// End (exclusive) and rolling hash of the FastCDC chunk of `data` that starts at `start`.
///
/// When at most `min_size` bytes remain they form the chunk. Otherwise a cut-point is
/// searched for with `MASK_S` over `[start + min_size, start + avg_size)`; the first one
/// found ends the chunk. When that range holds none (or is empty), a fresh search with
/// `MASK_L` over `[start + avg_size, start + max_size)` decides. Both ranges are cut off
/// at the end of `data`.
pub open spec fn spec_chunk_end(data: Seq<u8>, start: int, config: Config) -> (int, u64) {
    let len = data.len() as int;
    if len - start <= config.min_size {
        (len, 0)
    } else {
        let start_scan = start + config.min_size;
        let max_scan = min_int(start + config.max_size, len);
        let avg_scan = min_int(start + config.avg_size, max_scan);
        match first_cut(data, start_scan, start_scan + 1, avg_scan, MASK_S) {
            Some(p) => (p, window_hash(data, start_scan, p)),
            None => spec_cutpoint(data, avg_scan, max_scan, MASK_L),
        }
    }
}

/// The chunks of `data` from `pos` on, as `(offset, end, rolling hash)`.
/// The sequence stops early only where a chunk would be empty, which
/// `chunking_terminates` and `chunking_ok` rule out.
pub open spec fn chunk_spans(data: Seq<u8>, pos: int, config: Config) -> Seq<(int, int, u64)>
    decreases data.len() - pos,
{
    if pos < 0 || pos >= data.len() {
        seq![]
    } else {
        let (end, h) = spec_chunk_end(data, pos, config);
        if end <= pos || end > data.len() {
            seq![]
        } else {
            seq![(pos, end, h)] + chunk_spans(data, end, config)
        }
    }
}

/// Every chunk is non-empty, so chunking `data` ends: either all of `data` is one
/// chunk or the maximum size is positive.
pub open spec fn chunking_terminates(data_len: int, config: Config) -> bool {
    data_len <= config.min_size || config.max_size > 0
}

/// Chunking `data` from `pos` on ends, and every chunk start it reaches computes its
/// offsets within `usize`.
pub open spec fn chunking_ok(data: Seq<u8>, pos: int, config: Config) -> bool
    decreases data.len() - pos,
{
    if pos < 0 || pos >= data.len() {
        true
    } else if !chunk_fits_at(pos, data.len() as int, config) {
        false
    } else {
        let end = spec_chunk_end(data, pos, config).0;
        if end <= pos || end > data.len() {
            false
        } else {
            chunking_ok(data, end, config)
        }
    }
}

/// `start + max_size` and `start + avg_size` fit in `usize` where the chunk at `start`
/// of data of length `data_len` needs them.
pub open spec fn chunk_fits_at(start: int, data_len: int, config: Config) -> bool {
    data_len - start <= config.min_size || (start + config.max_size <= usize::MAX && start
        + config.avg_size <= usize::MAX)
}

/// The offsets that chunking at `start` computes fit in `usize`.
pub fn fits_at(start: usize, data_len: usize, config: Config) -> (ok: bool)
    requires
        start <= data_len,
    ensures
        ok == chunk_fits_at(start as int, data_len as int, config),
{
    data_len - start <= config.min_size || (config.max_size <= usize::MAX - start
        && config.avg_size <= usize::MAX - start)
}

/// Chunking `data` with `config` ends and every chunk it reaches stays within `usize`.
pub fn can_chunk(data: &[u8], config: Config) -> (ok: bool)
    ensures
        ok == chunking_ok(data@, 0, config),
{
    let mut pos: usize = 0;
    while pos < data.len()
        invariant
            pos <= data@.len(),
            chunking_ok(data@, 0, config) == chunking_ok(data@, pos as int, config),
        decreases data@.len() - pos,
    {
        if !fits_at(pos, data.len(), config) {
            return false;
        }
        let (end, _hash) = chunk_end(data, pos, config);
        proof {
            lemma_chunk_end_bounds(data@, pos as int, config);
        }
        if end <= pos {
            return false;
        }
        pos = end;
    }
    true
}

/// End (exclusive) and rolling hash of the FastCDC chunk of `data` starting at `start`.
pub fn chunk_end(data: &[u8], start: usize, config: Config) -> (r: (usize, u64))
    requires
        start < data@.len(),
        chunk_fits_at(start as int, data@.len() as int, config),
    ensures
        (r.0 as int, r.1) == spec_chunk_end(data@, start as int, config),
{
    let remaining = data.len() - start;
    if remaining <= config.min_size {
        return (data.len(), 0);
    }
    let start_scan = start + config.min_size;
    let max_scan = if start + config.max_size <= data.len() {
        start + config.max_size
    } else {
        data.len()
    };
    let avg_scan = if start + config.avg_size <= max_scan {
        start + config.avg_size
    } else {
        max_scan
    };
    // 1. Scan with the small mask (normalized distribution).
    let (new_pos, h) = find_cutpoint(data, start_scan, avg_scan, MASK_S);
    proof {
        if start_scan < avg_scan {
            lemma_first_cut_bounds(data@, start_scan as int, start_scan + 1, avg_scan as int, MASK_S);
            match first_cut(data@, start_scan as int, start_scan + 1, avg_scan as int, MASK_S) {
                Some(p) => {
                    assert(new_pos == p);
                    assert(new_pos == avg_scan ==> (h & MASK_S) == 0);
                },
                None => {
                    assert(new_pos == avg_scan);
                    assert(!is_cut(data@, start_scan as int, avg_scan as int, MASK_S));
                },
            }
        }
    }
    if start_scan < avg_scan && (new_pos < avg_scan || (h & MASK_S) == 0) {
        return (new_pos, h);
    }
    // 2. Scan with the large mask if no cut-point was found.
    find_cutpoint(data, avg_scan, max_scan, MASK_L)
}

/// Bounds on the FastCDC chunk starting at `pos`.
pub proof fn lemma_chunk_end_bounds(data: Seq<u8>, pos: int, config: Config)
    requires
        0 <= pos < data.len(),
    ensures
        ({
            let (end, h) = spec_chunk_end(data, pos, config);
            &&& pos <= end <= data.len()
            &&& chunking_terminates(data.len() as int, config) ==> pos < end
            &&& end == data.len() || end - pos <= config.max_size
            &&& data.len() - pos > config.min_size ==> end - pos <= config.max_size
            &&& config.min_size <= config.max_size ==> end - pos <= config.max_size
            &&& config.min_size <= config.avg_size && config.min_size <= config.max_size ==> (
            end - pos >= config.min_size || end == data.len())
        }),
{
    let len = data.len() as int;
    if len - pos > config.min_size {
        let start_scan = pos + config.min_size;
        let max_scan = min_int(pos + config.max_size, len);
        let avg_scan = min_int(pos + config.avg_size, max_scan);
        lemma_first_cut_bounds(data, start_scan, start_scan + 1, avg_scan, MASK_S);
        if avg_scan < max_scan {
            lemma_cutpoint_is_first_cut(data, avg_scan, max_scan, MASK_L);
        }
    }
}

/// Where a FastCDC chunk ends, in terms of gear-hash cut-points.
///
/// With at most `min_size` bytes left past `start`, they form the chunk, hash 0.
/// Otherwise let `s_from = start + min_size`, `max_end = min(start + max_size, len)` and
/// `s_end = min(start + avg_size, max_end)`. Either the chunk ends at the first `MASK_S`
/// cut-point of `(s_from, s_end]` for a scan begun at `s_from`, with the hash of
/// `data[s_from..end)`; or that range holds none, and the chunk ends at the first
/// `MASK_L` cut-point of `(s_end, max_end]` for a fresh scan begun at `s_end`, or at
/// `max_end` when there is none, with the hash of `data[s_end..end)`.
pub proof fn lemma_chunk_end_cuts(data: Seq<u8>, start: int, config: Config)
    requires
        0 <= start < data.len(),
        config.min_size <= config.avg_size <= config.max_size,
    ensures
        ({
            let (end, h) = spec_chunk_end(data, start, config);
            let len = data.len() as int;
            let s_from = start + config.min_size;
            let max_end = min_int(start + config.max_size, len);
            let s_end = min_int(start + config.avg_size, max_end);
            &&& len - start <= config.min_size ==> end == len && h == 0
            &&& len - start > config.min_size ==> s_from <= s_end <= max_end
            &&& len - start > config.min_size ==> forall|q: int|
                s_from < q < end && q <= s_end ==> !#[trigger] is_cut(data, s_from, q, MASK_S)
            &&& len - start > config.min_size ==> {
                ||| (s_from < end <= s_end && is_cut(data, s_from, end, MASK_S) && h
                    == window_hash(data, s_from, end))
                ||| ((forall|q: int| s_from < q <= s_end ==> !#[trigger] is_cut(data, s_from, q, MASK_S))
                    && s_end <= end <= max_end && (s_end < max_end ==> s_end < end) && (forall|q: int|
                    s_end < q < end ==> !#[trigger] is_cut(data, s_end, q, MASK_L)) && (end
                    < max_end ==> is_cut(data, s_end, end, MASK_L)) && h == window_hash(
                    data,
                    s_end,
                    end,
                ))
            }
        }),
{
    let len = data.len() as int;
    if len - start > config.min_size {
        let s_from = start + config.min_size;
        let max_end = min_int(start + config.max_size, len);
        let s_end = min_int(start + config.avg_size, max_end);
        lemma_first_cut_bounds(data, s_from, s_from + 1, s_end, MASK_S);
        if s_end < max_end {
            lemma_cutpoint_is_first_cut(data, s_end, max_end, MASK_L);
        } else {
            lemma_window_empty(data, s_end);
        }
    }
}

/// The chunks of `data` from `pos` on tile `data[pos..]`: each is non-empty, the first
/// starts at `pos`, each starts where the one before ends, the last ends at the end of
/// `data`, and their lengths add up to `data.len() - pos`.
pub proof fn lemma_chunk_spans_tile(data: Seq<u8>, pos: int, config: Config)
    requires
        0 <= pos <= data.len(),
        chunking_terminates(data.len() as int, config),
    ensures
        ({
            let s = chunk_spans(data, pos, config);
            &&& (s.len() == 0 <==> pos == data.len())
            &&& s.len() > 0 ==> s[0].0 == pos && s.last().1 == data.len()
            &&& forall|i: int| 0 <= i < s.len() ==> #[trigger] s[i].0 < s[i].1
            &&& forall|i: int| 0 <= i < s.len() - 1 ==> #[trigger] s[i].1 == s[i + 1].0
            &&& total_length(s) == data.len() - pos
        }),
    decreases data.len() - pos,
{
    if pos < data.len() {
        lemma_chunk_end_bounds(data, pos, config);
        let (end, h) = spec_chunk_end(data, pos, config);
        lemma_chunk_spans_tile(data, end, config);
        let s = chunk_spans(data, pos, config);
        let rest = chunk_spans(data, end, config);
        assert(s == seq![(pos, end, h)] + rest);
        assert(s.drop_first() =~= rest);
        assert forall|i: int| 0 <= i < s.len() - 1 implies #[trigger] s[i].1 == s[i + 1].0 by {
            if i > 0 {
                assert(s[i] == rest[i - 1]);
                assert(s[i + 1] == rest[i]);
            }
        }
        assert forall|i: int| 0 <= i < s.len() implies #[trigger] s[i].0 < s[i].1 by {
            if i > 0 {
                assert(s[i] == rest[i - 1]);
            }
        }
        if rest.len() > 0 {
            assert(s.last() == rest.last());
        }
    }
}

/// Sum of the lengths of chunk spans.
pub open spec fn total_length(s: Seq<(int, int, u64)>) -> int
    decreases s.len(),
{
    if s.len() == 0 {
        0
    } else {
        (s[0].1 - s[0].0) + total_length(s.drop_first())
    }
}

/// With `min_size <= max_size`, no chunk is longer than `max_size`; with also
/// `min_size <= avg_size`, every chunk but one that ends the data is at least
/// `min_size` long.
pub proof fn lemma_chunk_spans_sizes(data: Seq<u8>, pos: int, config: Config)
    requires
        0 <= pos <= data.len(),
    ensures
        ({
            let s = chunk_spans(data, pos, config);
            &&& config.min_size <= config.max_size ==> forall|i: int|
                0 <= i < s.len() ==> #[trigger] s[i].1 - s[i].0 <= config.max_size
            &&& config.min_size <= config.avg_size && config.min_size <= config.max_size
                ==> forall|i: int|
                0 <= i < s.len() ==> #[trigger] s[i].1 - s[i].0 >= config.min_size || s[i].1
                == data.len()
        }),
    decreases data.len() - pos,
{
    if pos < data.len() {
        lemma_chunk_end_bounds(data, pos, config);
        let (end, h) = spec_chunk_end(data, pos, config);
        if pos < end {
            lemma_chunk_spans_sizes(data, end, config);
            let s = chunk_spans(data, pos, config);
            let rest = chunk_spans(data, end, config);
            assert(s == seq![(pos, end, h)] + rest);
            assert forall|i: int| 0 < i < s.len() implies s[i] == rest[i - 1] by {}
        }
    }
}

/// A FastCDC chunk depends only on the bytes of its `max_size` window: when two data
/// agree on `[start, start + max_size)` and both extend that far, the chunks at `start`
/// end at the same place with the same rolling hash and the same bytes.
pub proof fn lemma_chunk_end_local(d1: Seq<u8>, d2: Seq<u8>, start: int, config: Config)
    requires
        config.min_size <= config.avg_size <= config.max_size,
        0 <= start,
        start + config.max_size <= d1.len(),
        start + config.max_size <= d2.len(),
        d1.subrange(start, start + config.max_size) == d2.subrange(start, start + config.max_size),
    ensures
        spec_chunk_end(d1, start, config) == spec_chunk_end(d2, start, config),
        start <= spec_chunk_end(d1, start, config).0 <= start + config.max_size,
        d1.subrange(start, spec_chunk_end(d1, start, config).0) == d2.subrange(
            start,
            spec_chunk_end(d1, start, config).0,
        ),
{
    let m = start + config.max_size;
    let w = d1.subrange(start, m);
    if d1.len() - start > config.min_size {
        lemma_chunk_end_bounds(d1, start, config);
    }
    if d2.len() - start > config.min_size {
        lemma_chunk_end_bounds(d2, start, config);
    }
    let ss = start + config.min_size;
    let av = start + config.avg_size;
    if config.min_size < config.max_size {
        // Both data extend past start + min_size: the searches run over the same window.
        assert(d1.subrange(ss, av) =~= w.subrange(ss - start, av - start));
        assert(d2.subrange(ss, av) =~= d2.subrange(start, m).subrange(ss - start, av - start));
        lemma_first_cut_shift(d1, ss, d2, ss, av - ss, 1, MASK_S);
        match first_cut(d1, ss, ss + 1, av, MASK_S) {
            Some(p) => {
                lemma_first_cut_bounds(d1, ss, ss + 1, av, MASK_S);
                lemma_window_hash_shift(d1, ss, d2, ss, av - ss, p - ss);
            },
            None => {},
        }
        assert(d1.subrange(av, m) =~= w.subrange(av - start, m - start));
        assert(d2.subrange(av, m) =~= d2.subrange(start, m).subrange(av - start, m - start));
        lemma_cutpoint_local(d1, av, d2, av, m - av, MASK_L);
    } else {
        // min_size == avg_size == max_size: the chunk is exactly max_size long, hash 0.
        assert(first_cut(d1, ss, ss + 1, av, MASK_S) == None::<int>);
        assert(first_cut(d2, ss, ss + 1, av, MASK_S) == None::<int>);
    }
    let e = spec_chunk_end(d1, start, config).0;
    assert(d1.subrange(start, e) =~= w.subrange(0, e - start));
    assert(d2.subrange(start, e) =~= d2.subrange(start, m).subrange(0, e - start));
}

/// Chunks are fixed by a prefix of the data: when two data agree on their first `m`
/// bytes, every chunk of the first whose `max_size` window ends by `m` is also a chunk
/// of the second, at the same place, with the same rolling hash and bytes.
pub proof fn lemma_chunk_spans_local(
    d1: Seq<u8>,
    d2: Seq<u8>,
    pos: int,
    m: int,
    config: Config,
    j: int,
)
    requires
        config.min_size <= config.avg_size <= config.max_size,
        0 < config.max_size,
        0 <= pos,
        m <= d1.len(),
        m <= d2.len(),
        d1.subrange(0, m) == d2.subrange(0, m),
        0 <= j <= chunk_spans(d1, pos, config).len(),
        forall|i: int| 0 <= i < j ==> #[trigger] chunk_spans(d1, pos, config)[i].0 + config.max_size <= m,
    ensures
        j <= chunk_spans(d2, pos, config).len(),
        forall|i: int|
            0 <= i < j ==> #[trigger] chunk_spans(d1, pos, config)[i] == chunk_spans(d2, pos, config)[i],
        forall|i: int|
            0 <= i < j ==> {
                let s = #[trigger] chunk_spans(d1, pos, config)[i];
                d1.subrange(s.0, s.1) == d2.subrange(s.0, s.1)
            },
    decreases j,
{
    if j > 0 {
        let s1 = chunk_spans(d1, pos, config);
        let s2 = chunk_spans(d2, pos, config);
        assert(s1[0].0 + config.max_size <= m);
        let mx = config.max_size as int;
        assert(d1.subrange(pos, pos + mx) =~= d1.subrange(0, m).subrange(pos, pos + mx));
        assert(d2.subrange(pos, pos + mx) =~= d2.subrange(0, m).subrange(pos, pos + mx));
        lemma_chunk_end_local(d1, d2, pos, config);
        let (end, h) = spec_chunk_end(d1, pos, config);
        assert(s1 == seq![(pos, end, h)] + chunk_spans(d1, end, config));
        assert(s2 == seq![(pos, end, h)] + chunk_spans(d2, end, config));
        let r1 = chunk_spans(d1, end, config);
        let r2 = chunk_spans(d2, end, config);
        assert forall|i: int| 0 <= i < j - 1 implies #[trigger] r1[i].0 + config.max_size <= m by {
            assert(r1[i] == s1[i + 1]);
        }
        lemma_chunk_spans_local(d1, d2, end, m, config, j - 1);
        assert forall|i: int| 0 <= i < j implies #[trigger] s1[i] == s2[i] by {
            if i > 0 {
                assert(s1[i] == r1[i - 1]);
                assert(s2[i] == r2[i - 1]);
            }
        }
        assert forall|i: int| 0 <= i < j implies {
            let s = #[trigger] s1[i];
            d1.subrange(s.0, s.1) == d2.subrange(s.0, s.1)
        } by {
            if i > 0 {
                assert(s1[i] == r1[i - 1]);
            }
        }
    }
}

/// FastCDC implementation for in-memory data.
pub struct FastCDC<'a> {
    data: &'a [u8],
    pos: usize,
    config: Config,
}

impl<'a> FastCDC<'a> {
    /// The data being chunked.
    pub closed spec fn data_view(&self) -> Seq<u8> {
        self.data@
    }

    /// Start of the next chunk.
    pub closed spec fn position(&self) -> int {
        self.pos as int
    }

    /// The configuration in use.
    pub closed spec fn config_view(&self) -> Config {
        self.config
    }

    /// The position lies within the data.
    pub closed spec fn wf(&self) -> bool {
        self.pos <= self.data@.len()
    }

    /// A chunker positioned at the start of `data`.
    pub fn new(data: &'a [u8], config: Config) -> (r: Self)
        ensures
            r.wf(),
            r.data_view() == data@,
            r.position() == 0,
            r.config_view() == config,
    {
        Self { data, pos: 0, config }
    }

    /// A well-formed chunker's position lies within its data.
    pub proof fn lemma_position_bounds(&self)
        requires
            self.wf(),
        ensures
            0 <= self.position() <= self.data_view().len(),
    {
    }

    /// The next call of `next_chunk` computes its offsets within `usize`.
    pub fn can_advance(&self) -> (ok: bool)
        requires
            self.wf(),
        ensures
            ok == self.ready(),
    {
        fits_at(self.pos, self.data.len(), self.config)
    }
}

/// A source of chunks.
pub trait Chunker {
    /// The chunker admits a call of `next_chunk`.
    spec fn ready(&self) -> bool;

    /// The next chunk, or `None` once the input is exhausted.
    fn next_chunk(&mut self) -> (chunk: Option<Chunk>)
        requires
            old(self).ready(),
    ;
}

impl<'a> Chunker for FastCDC<'a> {
    /// Well-formed, and the chunk at the current position computes its offsets within
    /// `usize`.
    open spec fn ready(&self) -> bool {
        &&& self.wf()
        &&& chunk_fits_at(self.position(), self.data_view().len() as int, self.config_view())
    }

    /// Returns the chunk that starts at the current position and moves past it;
    /// `None` at the end of the data.
    fn next_chunk(&mut self) -> (chunk: Option<Chunk>)
        ensures
            final(self).wf(),
            final(self).data_view() == old(self).data_view(),
            final(self).config_view() == old(self).config_view(),
            old(self).position() >= old(self).data_view().len() ==> chunk is None
                && final(self).position() == old(self).position(),
            old(self).position() < old(self).data_view().len() ==> ({
                let (end, h) = spec_chunk_end(
                    old(self).data_view(),
                    old(self).position(),
                    old(self).config_view(),
                );
                &&& chunk is Some
                &&& chunk_describes(
                    chunk->0,
                    old(self).data_view(),
                    old(self).position(),
                    end,
                    h,
                    old(self).config_view().content_hash_mode,
                )
                &&& final(self).position() == end
            }),
    {
        if self.pos >= self.data.len() {
            return None;
        }
        let start = self.pos;
        let (end, hash) = chunk_end(self.data, start, self.config);
        proof {
            lemma_chunk_end_bounds(self.data@, start as int, self.config);
        }
        let length = end - start;
        let chunk_data = slice_subrange(self.data, start, end);
        let content_hash = content_hash_of(self.config.content_hash_mode, chunk_data);
        self.pos = end;
        Some(Chunk { offset: start, length, rolling_hash: hash, content_hash })
    }
}

} // verus!
