//! Counting, comparing and summarizing chunks, and the data edits used to
//! measure how chunk boundaries respond to changes.
use vstd::prelude::*;
use crate::chunk::{
    chunk_describes, chunk_spans, chunking_ok, chunking_terminates, lemma_chunk_end_bounds,
    lemma_chunk_spans_sizes, lemma_chunk_spans_tile, max_int, min_int,
    spec_chunk_end, Chunk, Chunker, FastCDC,
};
use crate::config::Config;

verus! {

/// Index of the byte that [`corrupted_copy`] flips.
pub const CORRUPTION_INDEX: usize = 5000;

/// The chunk sequence from `pos` on is the chunk at `pos` followed by the chunks
/// after it.
proof fn lemma_chunk_spans_unfold(data: Seq<u8>, pos: int, config: Config)
    requires
        0 <= pos < data.len(),
        chunking_ok(data, pos, config),
    ensures
        ({
            let (end, h) = spec_chunk_end(data, pos, config);
            &&& pos < end <= data.len()
            &&& chunking_ok(data, end, config)
            &&& chunk_spans(data, pos, config) == seq![(pos, end, h)] + chunk_spans(data, end, config)
        }),
{
    lemma_chunk_end_bounds(data, pos, config);
}

/// Number of chunks FastCDC cuts from `data`.
pub fn chunk_bytes(data: &[u8], config: Config) -> (count: u64)
    requires
        chunking_ok(data@, 0, config),
    ensures
        count == chunk_spans(data@, 0, config).len(),
        (count > 0) == (data@.len() > 0),
{
    proof {
        if data@.len() > 0 {
            lemma_chunk_spans_unfold(data@, 0, config);
        }
    }
    let n = data.len();
    let mut cdc = FastCDC::new(data, config);
    let mut count = 0u64;
    loop
        invariant
            n == data@.len(),
            cdc.wf(),
            cdc.data_view() == data@,
            cdc.config_view() == config,
            chunking_ok(data@, cdc.position(), config),
            0 <= cdc.position() <= data@.len(),
            count <= cdc.position(),
            count + chunk_spans(data@, cdc.position(), config).len() == chunk_spans(
                data@,
                0,
                config,
            ).len(),
        ensures
            count == chunk_spans(data@, 0, config).len(),
        decreases data@.len() - cdc.position(),
    {
        let ghost pos = cdc.position();
        proof {
            if pos < data@.len() {
                lemma_chunk_spans_unfold(data@, pos, config);
                lemma_chunk_end_bounds(data@, pos, config);
            }
            assert(cdc.ready());
        }
        match cdc.next_chunk() {
            Some(_chunk) => {
                count += 1;
            },
            None => {
                break ;
            },
        }
    }
    count
}

/// The chunks FastCDC cuts from `data`, in order.
pub fn collect_chunks(data: &[u8], config: Config) -> (chunks: Vec<Chunk>)
    requires
        chunking_ok(data@, 0, config),
    ensures
        chunks@.len() == chunk_spans(data@, 0, config).len(),
        forall|i: int|
            0 <= i < chunks@.len() ==> {
                let s = #[trigger] chunk_spans(data@, 0, config)[i];
                chunk_describes(chunks@[i], data@, s.0, s.1, s.2, config.content_hash_mode)
            },
        // The chunks tile the data.
        (chunks@.len() == 0) == (data@.len() == 0),
        chunks@.len() > 0 ==> chunks@[0].offset == 0 && chunks@.last().offset
            + chunks@.last().length == data@.len(),
        forall|i: int|
            0 <= i < chunks@.len() - 1 ==> #[trigger] chunks@[i].offset + chunks@[i].length
                == chunks@[i + 1].offset,
        forall|i: int| 0 <= i < chunks@.len() ==> #[trigger] chunks@[i].length >= 1,
        // The size bounds.
        config.min_size <= config.max_size ==> forall|i: int|
            0 <= i < chunks@.len() ==> #[trigger] chunks@[i].length <= config.max_size,
        config.min_size <= config.avg_size <= config.max_size ==> forall|i: int|
            0 <= i < chunks@.len() ==> #[trigger] chunks@[i].length >= config.min_size
                || chunks@[i].offset + chunks@[i].length == data@.len(),
{
    let ghost spans = chunk_spans(data@, 0, config);
    let mut cdc = FastCDC::new(data, config);
    let mut chunks: Vec<Chunk> = Vec::new();
    loop
        invariant
            cdc.wf(),
            cdc.data_view() == data@,
            cdc.config_view() == config,
            chunking_ok(data@, cdc.position(), config),
            0 <= cdc.position() <= data@.len(),
            spans == chunk_spans(data@, 0, config),
            chunks@.len() + chunk_spans(data@, cdc.position(), config).len() == spans.len(),
            spans.subrange(chunks@.len() as int, spans.len() as int) == chunk_spans(
                data@,
                cdc.position(),
                config,
            ),
            forall|i: int|
                0 <= i < chunks@.len() ==> {
                    let s = #[trigger] spans[i];
                    chunk_describes(chunks@[i], data@, s.0, s.1, s.2, config.content_hash_mode)
                },
        ensures
            chunks@.len() == spans.len(),
            forall|i: int|
                0 <= i < chunks@.len() ==> {
                    let s = #[trigger] spans[i];
                    chunk_describes(chunks@[i], data@, s.0, s.1, s.2, config.content_hash_mode)
                },
        decreases data@.len() - cdc.position(),
    {
        let ghost pos = cdc.position();
        let ghost rest = chunk_spans(data@, pos, config);
        proof {
            if pos < data@.len() {
                lemma_chunk_spans_unfold(data@, pos, config);
                lemma_chunk_end_bounds(data@, pos, config);
            }
            assert(cdc.ready());
        }
        match cdc.next_chunk() {
            Some(chunk) => {
                proof {
                    let k = chunks@.len() as int;
                    let next = chunk_spans(data@, cdc.position(), config);
                    assert(spans[k] == spans.subrange(k, spans.len() as int)[0]);
                    assert(spans.subrange(k + 1, spans.len() as int) =~= rest.drop_first());
                    assert(rest.drop_first() =~= next);
                }
                chunks.push(chunk);
            },
            None => {
                break ;
            },
        }
    }
    proof {
        lemma_ok_terminates(data@, config);
        lemma_chunk_spans_tile(data@, 0, config);
        lemma_chunk_spans_sizes(data@, 0, config);
        let s = chunk_spans(data@, 0, config);
        let c = chunks@;
        if c.len() > 0 {
            assert(c.last() == c[c.len() - 1]);
            assert(s.last() == s[s.len() - 1]);
        }
        assert forall|i: int| 0 <= i < c.len() - 1 implies #[trigger] c[i].offset + c[i].length
            == c[i + 1].offset by {
            assert(s[i].1 == s[i + 1].0);
        }
        assert forall|i: int| 0 <= i < c.len() implies #[trigger] c[i].length >= 1 by {
            assert(s[i].0 < s[i].1);
        }
        if config.min_size <= config.max_size {
            assert forall|i: int| 0 <= i < c.len() implies #[trigger] c[i].length <= config.max_size by {
                assert(s[i].1 - s[i].0 <= config.max_size);
            }
        }
        if config.min_size <= config.avg_size <= config.max_size {
            assert forall|i: int| 0 <= i < c.len() implies #[trigger] c[i].length >= config.min_size
                || c[i].offset + c[i].length == data@.len() by {
                assert(s[i].1 - s[i].0 >= config.min_size || s[i].1 == data@.len());
            }
        }
    }
    chunks
}

/// Data that chunks without overflow or empty chunks has a positive maximum size or is
/// a single chunk.
proof fn lemma_ok_terminates(data: Seq<u8>, config: Config)
    requires
        chunking_ok(data, 0, config),
    ensures
        chunking_terminates(data.len() as int, config),
{
    if data.len() > config.min_size {
        lemma_chunk_end_bounds(data, 0, config);
    }
}

/// Some chunk of `chunks` has content hash `digest`.
pub open spec fn has_digest(chunks: Seq<Chunk>, digest: Seq<u8>) -> bool {
    exists|i: int| 0 <= i < chunks.len() && #[trigger] chunks[i].content_hash@ == digest
}

/// Number of chunks of `chunks2` whose content hash is the content hash of some
/// chunk of `chunks1`.
pub open spec fn duplicate_count(chunks1: Seq<Chunk>, chunks2: Seq<Chunk>) -> nat
    decreases chunks2.len(),
{
    if chunks2.len() == 0 {
        0
    } else {
        duplicate_count(chunks1, chunks2.drop_last()) + if has_digest(
            chunks1,
            chunks2.last().content_hash@,
        ) {
            1nat
        } else {
            0nat
        }
    }
}

/// The two digests are equal byte for byte.
fn same_digest(a: &[u8; 32], b: &[u8; 32]) -> (r: bool)
    ensures
        r == (a@ == b@),
{
    let mut i: usize = 0;
    while i < 32
        invariant
            i <= 32,
            forall|j: int| 0 <= j < i ==> a@[j] == b@[j],
        decreases 32 - i,
    {
        if a[i] != b[i] {
            return false;
        }
        i += 1;
    }
    proof {
        assert(a@ =~= b@);
    }
    true
}

/// Compare two sets of chunks and return duplicate count: the number of chunks of
/// `chunks2` whose content hash occurs among the chunks of `chunks1`.
pub fn get_duplicates(chunks1: &[Chunk], chunks2: &[Chunk]) -> (duplicates: usize)
    ensures
        duplicates == duplicate_count(chunks1@, chunks2@),
        duplicates == chunks2@.filter(
            |c: Chunk|
                exists|i: int|
                    0 <= i < chunks1@.len() && #[trigger] chunks1@[i].content_hash@ == c.content_hash@,
        ).len(),
{
    let mut hashes1: Vec<[u8; 32]> = Vec::new();
    let mut k: usize = 0;
    while k < chunks1.len()
        invariant
            k <= chunks1@.len(),
            hashes1@.len() == k,
            forall|i: int| 0 <= i < k ==> #[trigger] hashes1@[i] == chunks1@[i].content_hash,
        decreases chunks1@.len() - k,
    {
        hashes1.push(chunks1[k].content_hash);
        k += 1;
    }
    let mut duplicates: usize = 0;
    let mut j: usize = 0;
    while j < chunks2.len()
        invariant
            j <= chunks2@.len(),
            hashes1@.len() == chunks1@.len(),
            forall|i: int| 0 <= i < chunks1@.len() ==> #[trigger] hashes1@[i] == chunks1@[i].content_hash,
            duplicates == duplicate_count(chunks1@, chunks2@.take(j as int)),
            duplicates <= j,
        decreases chunks2@.len() - j,
    {
        let digest = chunks2[j].content_hash;
        let mut found = false;
        let mut i: usize = 0;
        while i < hashes1.len()
            invariant
                i <= hashes1@.len(),
                hashes1@.len() == chunks1@.len(),
                forall|m: int| 0 <= m < chunks1@.len() ==> #[trigger] hashes1@[m] == chunks1@[m].content_hash,
                found == exists|m: int| 0 <= m < i && #[trigger] chunks1@[m].content_hash@ == digest@,
            decreases hashes1@.len() - i,
        {
            if same_digest(&hashes1[i], &digest) {
                found = true;
            }
            i += 1;
        }
        proof {
            assert(chunks2@.take(j + 1).drop_last() =~= chunks2@.take(j as int));
            assert(chunks2@.take(j + 1).last() == chunks2@[j as int]);
            assert(found == has_digest(chunks1@, digest@));
        }
        if found {
            duplicates += 1;
        }
        j += 1;
    }
    proof {
        assert(chunks2@.take(j as int) =~= chunks2@);
        lemma_duplicates_match_hashes(chunks1@, chunks2@);
    }
    duplicates
}

/// The duplicate count is the number of chunks of `chunks2` whose whole content hash,
/// all 32 bytes of it, is the content hash of some chunk of `chunks1`.
pub proof fn lemma_duplicates_match_hashes(chunks1: Seq<Chunk>, chunks2: Seq<Chunk>)
    ensures
        duplicate_count(chunks1, chunks2) == chunks2.filter(
            |c: Chunk|
                exists|i: int|
                    0 <= i < chunks1.len() && #[trigger] chunks1[i].content_hash@ == c.content_hash@,
        ).len(),
    decreases chunks2.len(),
{
    let shared = |c: Chunk|
        exists|i: int| 0 <= i < chunks1.len() && #[trigger] chunks1[i].content_hash@ == c.content_hash@;
    if chunks2.len() > 0 {
        lemma_duplicates_match_hashes(chunks1, chunks2.drop_last());
        let x = chunks2.last();
        reveal(Seq::filter);
        if has_digest(chunks1, x.content_hash@) {
            let i = choose|i: int| 0 <= i < chunks1.len() && #[trigger] chunks1[i].content_hash@ == x.content_hash@;
            assert(shared(x));
        } else {
            assert(!shared(x));
        }
        assert(chunks2.filter(shared) == if shared(x) {
            chunks2.drop_last().filter(shared).push(x)
        } else {
            chunks2.drop_last().filter(shared)
        });
    }
}

/// One chunk compared with one chunk is a duplicate exactly when the two content hashes
/// agree in all 32 bytes.
pub proof fn lemma_duplicates_pair(c1: Chunk, c2: Chunk)
    ensures
        duplicate_count(seq![c1], seq![c2]) == if c1.content_hash@ == c2.content_hash@ {
            1nat
        } else {
            0nat
        },
{
    let one = seq![c2];
    assert(one.drop_last() =~= Seq::<Chunk>::empty());
    assert(one.last() == c2);
    assert(seq![c1][0] == c1);
    let both = seq![c1];
    assert(both[0] == c1);
    assert(duplicate_count(both, Seq::<Chunk>::empty()) == 0);
    if c1.content_hash@ == c2.content_hash@ {
        assert(has_digest(both, c2.content_hash@));
    } else {
        assert forall|i: int| 0 <= i < both.len() implies #[trigger] both[i].content_hash@
            != c2.content_hash@ by {
            assert(i == 0);
        }
    }
}

/// Every chunk of a list is a duplicate of itself: comparing a list of chunks with
/// itself counts all of them.
pub proof fn lemma_duplicates_of_self(chunks: Seq<Chunk>)
    ensures
        duplicate_count(chunks, chunks) == chunks.len(),
{
    lemma_duplicates_all_found(chunks, chunks);
}

/// When every chunk of `chunks2` has its content hash among `chunks1`, all of
/// `chunks2` count as duplicates.
pub proof fn lemma_duplicates_all_found(chunks1: Seq<Chunk>, chunks2: Seq<Chunk>)
    requires
        forall|j: int| 0 <= j < chunks2.len() ==> has_digest(chunks1, #[trigger] chunks2[j].content_hash@),
    ensures
        duplicate_count(chunks1, chunks2) == chunks2.len(),
    decreases chunks2.len(),
{
    if chunks2.len() > 0 {
        let rest = chunks2.drop_last();
        assert forall|j: int| 0 <= j < rest.len() implies has_digest(chunks1, #[trigger] rest[j].content_hash@) by {
            assert(rest[j] == chunks2[j]);
        }
        lemma_duplicates_all_found(chunks1, rest);
        assert(has_digest(chunks1, chunks2[chunks2.len() - 1].content_hash@));
    }
}

/// The duplicate count never exceeds the number of chunks compared.
pub proof fn lemma_duplicates_bounded(chunks1: Seq<Chunk>, chunks2: Seq<Chunk>)
    ensures
        duplicate_count(chunks1, chunks2) <= chunks2.len(),
    decreases chunks2.len(),
{
    if chunks2.len() > 0 {
        lemma_duplicates_bounded(chunks1, chunks2.drop_last());
    }
}


/// Counting duplicates over a concatenation adds the counts of its parts.
pub proof fn lemma_duplicates_concat(chunks1: Seq<Chunk>, a: Seq<Chunk>, b: Seq<Chunk>)
    ensures
        duplicate_count(chunks1, a + b) == duplicate_count(chunks1, a) + duplicate_count(chunks1, b),
    decreases b.len(),
{
    if b.len() == 0 {
        assert(a + b =~= a);
    } else {
        lemma_duplicates_concat(chunks1, a, b.drop_last());
        assert((a + b).drop_last() =~= a + b.drop_last());
        assert((a + b).last() == b.last());
    }
}

/// Removing one chunk from the second list lowers the count by one exactly when that
/// chunk is a duplicate.
proof fn lemma_duplicates_remove(chunks1: Seq<Chunk>, t: Seq<Chunk>, j: int)
    requires
        0 <= j < t.len(),
    ensures
        duplicate_count(chunks1, t) == duplicate_count(chunks1, t.remove(j)) + if has_digest(
            chunks1,
            t[j].content_hash@,
        ) {
            1nat
        } else {
            0nat
        },
{
    let pre = t.subrange(0, j);
    let post = t.subrange(j + 1, t.len() as int);
    assert(t =~= pre + seq![t[j]] + post);
    assert(t.remove(j) =~= pre + post);
    lemma_duplicates_concat(chunks1, pre + seq![t[j]], post);
    lemma_duplicates_concat(chunks1, pre, seq![t[j]]);
    lemma_duplicates_concat(chunks1, pre, post);
    let one = seq![t[j]];
    assert(one.drop_last() =~= Seq::<Chunk>::empty());
    assert(one.last() == t[j]);
    assert(duplicate_count(chunks1, Seq::<Chunk>::empty()) == 0);
    assert(duplicate_count(chunks1, one) == duplicate_count(chunks1, one.drop_last()) + if has_digest(
        chunks1,
        t[j].content_hash@,
    ) {
        1nat
    } else {
        0nat
    });
}

/// The duplicate count does not depend on the order of the second list.
pub proof fn lemma_duplicates_permute_second(chunks1: Seq<Chunk>, s: Seq<Chunk>, t: Seq<Chunk>)
    requires
        s.to_multiset() == t.to_multiset(),
    ensures
        duplicate_count(chunks1, s) == duplicate_count(chunks1, t),
    decreases s.len(),
{
    s.to_multiset_ensures();
    t.to_multiset_ensures();
    if s.len() == 0 {
        assert(t.len() == s.to_multiset().len());
    } else {
        let x = s.last();
        assert(s.contains(x)) by {
            assert(s[s.len() - 1] == x);
        }
        assert(s.to_multiset().count(x) > 0);
        assert(t.to_multiset().count(x) > 0);
        assert(t.contains(x));
        let j = choose|j: int| 0 <= j < t.len() && t[j] == x;
        assert(s.drop_last() =~= s.remove(s.len() - 1));
        assert(t.remove(j).to_multiset() == s.drop_last().to_multiset());
        lemma_duplicates_permute_second(chunks1, s.drop_last(), t.remove(j));
        lemma_duplicates_remove(chunks1, t, j);
    }
}

/// Lists of chunks that hold the same digests give the same duplicate counts.
proof fn lemma_duplicates_same_digests(a: Seq<Chunk>, b: Seq<Chunk>, chunks2: Seq<Chunk>)
    requires
        forall|d: Seq<u8>| has_digest(a, d) == has_digest(b, d),
    ensures
        duplicate_count(a, chunks2) == duplicate_count(b, chunks2),
    decreases chunks2.len(),
{
    if chunks2.len() > 0 {
        lemma_duplicates_same_digests(a, b, chunks2.drop_last());
        assert(has_digest(a, chunks2.last().content_hash@) == has_digest(
            b,
            chunks2.last().content_hash@,
        ));
    }
}

/// The duplicate count does not depend on the order of the first list.
pub proof fn lemma_duplicates_permute_first(a: Seq<Chunk>, b: Seq<Chunk>, chunks2: Seq<Chunk>)
    requires
        a.to_multiset() == b.to_multiset(),
    ensures
        duplicate_count(a, chunks2) == duplicate_count(b, chunks2),
{
    a.to_multiset_ensures();
    b.to_multiset_ensures();
    assert forall|d: Seq<u8>| has_digest(a, d) == has_digest(b, d) by {
        if has_digest(a, d) {
            let i = choose|i: int| 0 <= i < a.len() && #[trigger] a[i].content_hash@ == d;
            assert(a.contains(a[i]));
            assert(a.to_multiset().count(a[i]) > 0);
            assert(b.to_multiset().count(a[i]) > 0);
            assert(b.contains(a[i]));
            let k = choose|k: int| 0 <= k < b.len() && b[k] == a[i];
            assert(b[k].content_hash@ == d);
        }
        if has_digest(b, d) {
            let i = choose|i: int| 0 <= i < b.len() && #[trigger] b[i].content_hash@ == d;
            assert(b.contains(b[i]));
            assert(b.to_multiset().count(b[i]) > 0);
            assert(a.to_multiset().count(b[i]) > 0);
            assert(a.contains(b[i]));
            let k = choose|k: int| 0 <= k < a.len() && a[k] == b[i];
            assert(a[k].content_hash@ == d);
        }
    }
    lemma_duplicates_same_digests(a, b, chunks2);
}

/// Appending chunks to the first list never lowers the duplicate count.
pub proof fn lemma_duplicates_grow_first(chunks1: Seq<Chunk>, extra: Seq<Chunk>, chunks2: Seq<Chunk>)
    ensures
        duplicate_count(chunks1, chunks2) <= duplicate_count(chunks1 + extra, chunks2),
    decreases chunks2.len(),
{
    if chunks2.len() > 0 {
        lemma_duplicates_grow_first(chunks1, extra, chunks2.drop_last());
        let d = chunks2.last().content_hash@;
        if has_digest(chunks1, d) {
            let i = choose|i: int| 0 <= i < chunks1.len() && #[trigger] chunks1[i].content_hash@ == d;
            assert((chunks1 + extra)[i] == chunks1[i]);
        }
    }
}

/// Summary of chunk lengths.
#[derive(Debug, Clone, Copy, PartialEq, Eq, Structural)]
pub struct ChunkStats {
    pub count: usize,
    pub min: usize,
    pub max: usize,
    pub sum: usize,
    pub avg: usize,
}

/// Sum of the lengths of `chunks`.
pub open spec fn length_sum(chunks: Seq<Chunk>) -> int
    decreases chunks.len(),
{
    if chunks.len() == 0 {
        0
    } else {
        length_sum(chunks.drop_last()) + chunks.last().length
    }
}

/// Least length among `chunks` (`usize::MAX` for none).
pub open spec fn length_min(chunks: Seq<Chunk>) -> int
    decreases chunks.len(),
{
    if chunks.len() == 0 {
        usize::MAX as int
    } else {
        min_int(length_min(chunks.drop_last()), chunks.last().length as int)
    }
}

/// Greatest length among `chunks` (0 for none).
pub open spec fn length_max(chunks: Seq<Chunk>) -> int
    decreases chunks.len(),
{
    if chunks.len() == 0 {
        0
    } else {
        max_int(length_max(chunks.drop_last()), chunks.last().length as int)
    }
}

/// Lengths add up over a concatenation.
pub proof fn lemma_length_sum_concat(a: Seq<Chunk>, b: Seq<Chunk>)
    ensures
        length_sum(a + b) == length_sum(a) + length_sum(b),
    decreases b.len(),
{
    if b.len() == 0 {
        assert(a + b =~= a);
    } else {
        lemma_length_sum_concat(a, b.drop_last());
        assert((a + b).drop_last() =~= a + b.drop_last());
        assert((a + b).last() == b.last());
    }
}

/// No chunks have total length 0; one chunk has its own length.
pub proof fn lemma_length_sum_single(c: Chunk)
    ensures
        length_sum(Seq::<Chunk>::empty()) == 0,
        length_sum(seq![c]) == c.length,
{
    assert(seq![c].drop_last() =~= Seq::<Chunk>::empty());
}

/// Every chunk length lies between the least and the greatest length, and both are the
/// lengths of chunks of the list.
pub proof fn lemma_length_min_max(chunks: Seq<Chunk>)
    requires
        chunks.len() > 0,
    ensures
        forall|i: int|
            0 <= i < chunks.len() ==> length_min(chunks) <= #[trigger] chunks[i].length
                <= length_max(chunks),
        exists|i: int| 0 <= i < chunks.len() && #[trigger] chunks[i].length == length_max(chunks),
        exists|i: int| 0 <= i < chunks.len() && #[trigger] chunks[i].length == length_min(chunks),
    decreases chunks.len(),
{
    let n = chunks.len() as int;
    let rest = chunks.drop_last();
    let last = chunks[n - 1];
    assert(chunks.last() == last);
    if rest.len() == 0 {
        assert(length_min(rest) == usize::MAX);
        assert(length_max(rest) == 0);
        assert(chunks[0].length == length_max(chunks));
        assert(chunks[0].length == length_min(chunks));
    } else {
        lemma_length_min_max(rest);
        assert forall|i: int| 0 <= i < n implies length_min(chunks) <= #[trigger] chunks[i].length
            <= length_max(chunks) by {
            if i < n - 1 {
                assert(chunks[i] == rest[i]);
            }
        }
        let a = choose|i: int| 0 <= i < rest.len() && #[trigger] rest[i].length == length_max(rest);
        let b = choose|i: int| 0 <= i < rest.len() && #[trigger] rest[i].length == length_min(rest);
        assert(chunks[a] == rest[a]);
        assert(chunks[b] == rest[b]);
        if length_max(rest) >= last.length {
            assert(chunks[a].length == length_max(chunks));
        } else {
            assert(chunks[n - 1].length == length_max(chunks));
        }
        if length_min(rest) <= last.length {
            assert(chunks[b].length == length_min(chunks));
        } else {
            assert(chunks[n - 1].length == length_min(chunks));
        }
    }
}

proof fn lemma_length_sum_monotone(chunks: Seq<Chunk>, i: int)
    requires
        0 <= i <= chunks.len(),
    ensures
        length_sum(chunks.take(i)) <= length_sum(chunks),
    decreases chunks.len() - i,
{
    if i < chunks.len() {
        lemma_length_sum_monotone(chunks, i + 1);
        assert(chunks.take(i + 1).drop_last() =~= chunks.take(i));
    } else {
        assert(chunks.take(i) =~= chunks);
    }
}

/// The lengths of `chunks` add up to at most `usize::MAX`.
pub fn length_sum_fits(chunks: &[Chunk]) -> (ok: bool)
    ensures
        ok == (length_sum(chunks@) <= usize::MAX),
{
    let mut sum: usize = 0;
    let mut i: usize = 0;
    while i < chunks.len()
        invariant
            i <= chunks@.len(),
            sum == length_sum(chunks@.take(i as int)),
        decreases chunks@.len() - i,
    {
        proof {
            assert(chunks@.take(i + 1).drop_last() =~= chunks@.take(i as int));
        }
        match sum.checked_add(chunks[i].length) {
            Some(s) => {
                sum = s;
            },
            None => {
                proof {
                    lemma_length_sum_monotone(chunks@, i + 1);
                }
                return false;
            },
        }
        i += 1;
    }
    proof {
        assert(chunks@.take(i as int) =~= chunks@);
    }
    true
}

/// Count, least, greatest, total and mean (rounded down) of the chunk lengths;
/// `None` for no chunks.
pub fn chunk_stats(chunks: &[Chunk]) -> (stats: Option<ChunkStats>)
    requires
        length_sum(chunks@) <= usize::MAX,
    ensures
        chunks@.len() == 0 ==> stats is None,
        chunks@.len() > 0 ==> stats == Some(
            ChunkStats {
                count: chunks@.len() as usize,
                min: length_min(chunks@) as usize,
                max: length_max(chunks@) as usize,
                sum: length_sum(chunks@) as usize,
                avg: (length_sum(chunks@) / (chunks@.len() as int)) as usize,
            },
        ),
        // The least and greatest lengths bound every chunk length and are lengths of chunks.
        chunks@.len() > 0 ==> forall|i: int|
            0 <= i < chunks@.len() ==> stats->0.min <= #[trigger] chunks@[i].length
                <= stats->0.max,
        chunks@.len() > 0 ==> exists|i: int|
            0 <= i < chunks@.len() && #[trigger] chunks@[i].length == stats->0.max,
        chunks@.len() > 0 ==> exists|i: int|
            0 <= i < chunks@.len() && #[trigger] chunks@[i].length == stats->0.min,
        chunks@.len() > 0 ==> stats->0.avg == stats->0.sum / stats->0.count,
{
    if chunks.len() == 0 {
        return None;
    }
    let mut min = usize::MAX;
    let mut max: usize = 0;
    let mut sum: usize = 0;
    let mut i: usize = 0;
    while i < chunks.len()
        invariant
            i <= chunks@.len(),
            length_sum(chunks@) <= usize::MAX,
            min == length_min(chunks@.take(i as int)),
            max == length_max(chunks@.take(i as int)),
            sum == length_sum(chunks@.take(i as int)),
        decreases chunks@.len() - i,
    {
        let c = chunks[i];
        proof {
            assert(chunks@.take(i + 1).drop_last() =~= chunks@.take(i as int));
            assert(chunks@.take(i + 1).last() == c);
            lemma_length_sum_monotone(chunks@, i + 1);
        }
        if c.length < min {
            min = c.length;
        }
        if c.length > max {
            max = c.length;
        }
        sum += c.length;
        i += 1;
    }
    proof {
        assert(chunks@.take(i as int) =~= chunks@);
        lemma_length_min_max(chunks@);
    }
    let avg = sum / chunks.len();
    Some(ChunkStats { count: chunks.len(), min, max, sum, avg })
}

/// A copy of `data` with the bits of byte `CORRUPTION_INDEX` flipped, when `data` is
/// longer than `CORRUPTION_INDEX`; otherwise an exact copy.
pub fn corrupted_copy(data: &[u8]) -> (corrupted: Vec<u8>)
    ensures
        data@.len() > CORRUPTION_INDEX ==> corrupted@ == data@.update(
            CORRUPTION_INDEX as int,
            data@[CORRUPTION_INDEX as int] ^ 0xFF,
        ),
        data@.len() <= CORRUPTION_INDEX ==> corrupted@ == data@,
{
    let mut corrupted = copy_bytes(data);
    if corrupted.len() > CORRUPTION_INDEX {
        let b = corrupted[CORRUPTION_INDEX];
        corrupted.set(CORRUPTION_INDEX, b ^ 0xFF);
    }
    corrupted
}

/// A copy of `data`.
fn copy_bytes(data: &[u8]) -> (out: Vec<u8>)
    ensures
        out@ == data@,
{
    let mut out: Vec<u8> = Vec::new();
    let mut i: usize = 0;
    while i < data.len()
        invariant
            i <= data@.len(),
            out@ == data@.take(i as int),
        decreases data@.len() - i,
    {
        out.push(data[i]);
        i += 1;
        proof {
            assert(out@ =~= data@.take(i as int));
        }
    }
    proof {
        assert(data@.take(i as int) =~= data@);
    }
    out
}

/// `data` with its two halves swapped: the bytes from `len / 2` on, then the bytes
/// before `len / 2`.
pub fn swap_halves(data: &[u8]) -> (reordered: Vec<u8>)
    ensures
        reordered@ == data@.subrange((data@.len() / 2) as int, data@.len() as int) + data@.subrange(
            0,
            (data@.len() / 2) as int,
        ),
{
    let mid = data.len() / 2;
    let mut reordered: Vec<u8> = Vec::new();
    let mut i: usize = mid;
    while i < data.len()
        invariant
            mid <= i <= data@.len(),
            mid == (data@.len() / 2) as int,
            reordered@ == data@.subrange(mid as int, i as int),
        decreases data@.len() - i,
    {
        reordered.push(data[i]);
        i += 1;
        proof {
            assert(reordered@ =~= data@.subrange(mid as int, i as int));
        }
    }
    let mut j: usize = 0;
    while j < mid
        invariant
            j <= mid,
            mid == (data@.len() / 2) as int,
            reordered@ == data@.subrange(mid as int, data@.len() as int) + data@.subrange(0, j as int),
        decreases mid - j,
    {
        reordered.push(data[j]);
        j += 1;
        proof {
            assert(reordered@ =~= data@.subrange(mid as int, data@.len() as int) + data@.subrange(
                0,
                j as int,
            ));
        }
    }
    reordered
}

/// `original` with `insertion` inserted at a quarter of its length (`len / 4`).
pub fn insert_at_quarter(original: &[u8], insertion: &[u8]) -> (data: Vec<u8>)
    requires
        original@.len() + insertion@.len() <= usize::MAX,
    ensures
        data@ == original@.subrange(0, (original@.len() / 4) as int) + insertion@ + original@.subrange(
            (original@.len() / 4) as int,
            original@.len() as int,
        ),
{
    let mut data = copy_bytes(original);
    let pos = original.len() / 4;
    let mut i: usize = 0;
    while i < insertion.len()
        invariant
            i <= insertion@.len(),
            pos == original@.len() / 4,
            original@.len() + insertion@.len() <= usize::MAX,
            data@ == original@.subrange(0, pos as int) + insertion@.take(i as int)
                + original@.subrange(pos as int, original@.len() as int),
        decreases insertion@.len() - i,
    {
        data.insert(pos + i, insertion[i]);
        i += 1;
        proof {
            assert(data@ =~= original@.subrange(0, pos as int) + insertion@.take(i as int)
                + original@.subrange(pos as int, original@.len() as int));
        }
    }
    proof {
        assert(insertion@.take(i as int) =~= insertion@);
    }
    data
}

} // verus!
