use resplix_cdc::chunk::{Chunk, Chunker, FastCDC};
use resplix_cdc::stream::{stream_chunk_end, StreamStep, StreamingChunker};
use resplix_cdc::{Config, ContentHashMode};

fn lcg_bytes(n: usize, seed: u64) -> Vec<u8> {
    let mut data = vec![0u8; n];
    let mut rng = seed;
    for byte in data.iter_mut() {
        rng = rng.wrapping_mul(6364136223846793005).wrapping_add(1442695040888963407);
        *byte = (rng >> 33) as u8;
    }
    data
}

/// Drives the chunker over `data`, delivering at most `read_size` bytes per read.
fn stream_chunks(data: &[u8], config: Config, read_size: usize) -> Vec<(Chunk, Vec<u8>)> {
    let mut sc = StreamingChunker::new(config);
    let mut offset = 0;
    let mut out = Vec::new();
    let mut buffered: Vec<u8> = Vec::new();
    loop {
        match sc.poll() {
            StreamStep::Finished => break,
            StreamStep::NeedsInput => {
                let cap = sc.read_capacity();
                let n = cap.min(read_size).min(data.len() - offset);
                sc.fill_buffer(Some(&data[offset..offset + n]));
                buffered.extend_from_slice(&data[offset..offset + n]);
                offset += n;
                continue;
            }
            StreamStep::Ready => {}
        }
        match sc.emit_chunk() {
            Some(c) => {
                let bytes = buffered[..c.length].to_vec();
                buffered.drain(..c.length);
                out.push((c, bytes));
            }
            None => break,
        }
    }
    out
}

#[test]
fn streaming_covers_the_stream() {
    let data = lcg_bytes(300_000, 17);
    for read_size in [1000, 4096, 65536, 1 << 20] {
        let chunks = stream_chunks(&data, Config::default(), read_size);
        let total: usize = chunks.iter().map(|(c, _)| c.length).sum();
        assert_eq!(total, data.len());
        let joined: Vec<u8> = chunks.iter().flat_map(|(_, b)| b.clone()).collect();
        assert_eq!(joined, data);
        for (c, bytes) in &chunks {
            assert_eq!(&c.content_hash, blake3::hash(bytes).as_bytes());
            assert!(c.length <= 32768);
        }
    }
}

#[test]
fn streaming_of_zeros_matches_fastcdc_lengths() {
    let data = vec![0u8; 100 * 1024];
    let chunks = stream_chunks(&data, Config::default(), 1 << 20);
    let lens: Vec<usize> = chunks.iter().map(|(c, _)| c.length).collect();
    let mut cdc = FastCDC::new(&data, Config::default());
    let mut expected = Vec::new();
    while let Some(c) = cdc.next_chunk() {
        expected.push(c.length);
    }
    assert_eq!(lens, expected);
}

#[test]
fn poll_states() {
    let config = Config { min_size: 2, avg_size: 4, max_size: 8, content_hash_mode: ContentHashMode::Blake3 };
    let mut sc = StreamingChunker::new(config);
    assert_eq!(sc.poll(), StreamStep::NeedsInput);
    assert_eq!(sc.read_capacity(), 16);
    sc.fill_buffer(Some(&[1, 2, 3, 4, 5, 6, 7, 8, 9, 10]));
    assert_eq!(sc.poll(), StreamStep::Ready);
    sc.fill_buffer(None);
    assert_eq!(sc.poll(), StreamStep::Ready);
    sc.fill_buffer(Some(&[]));
    assert_eq!(sc.poll(), StreamStep::Ready);
    while sc.emit_chunk().is_some() {}
    assert_eq!(sc.poll(), StreamStep::Finished);
    assert!(sc.emit_chunk().is_none());
}

#[test]
fn fill_after_emit_compacts() {
    let config = Config { min_size: 2, avg_size: 3, max_size: 4, content_hash_mode: ContentHashMode::Blake3 };
    let mut sc = StreamingChunker::new(config);
    sc.fill_buffer(Some(&[9, 9, 9, 9, 9, 9]));
    let c = sc.emit_chunk().unwrap();
    assert_eq!(c.offset, 0);
    // Capacity counts the bytes still buffered.
    assert_eq!(sc.read_capacity(), 8 - (6 - c.length));
    sc.fill_buffer(Some(&[]));
    let c2 = sc.emit_chunk().unwrap();
    assert_eq!(c2.offset, 0);
}

#[test]
fn stream_chunk_end_short_buffer() {
    let buf = [1u8, 2, 3, 4];
    let config = Config::default();
    assert_eq!(stream_chunk_end(&buf, 1, 4, config), (4, 0));
}

#[test]
fn emit_fits_for_default_config() {
    let mut sc = StreamingChunker::new(Config::default());
    assert!(sc.emit_fits());
    sc.fill_buffer(Some(&[1, 2, 3]));
    assert!(sc.emit_fits());
    let huge = Config { min_size: 0, avg_size: usize::MAX, max_size: 4, content_hash_mode: ContentHashMode::Blake3 };
    let mut sc = StreamingChunker::new(huge);
    sc.fill_buffer(Some(&[1, 2, 3]));
    assert_eq!(sc.poll(), StreamStep::NeedsInput);
    sc.fill_buffer(Some(&[]));
    assert_eq!(sc.poll(), StreamStep::Ready);
    assert!(sc.emit_fits());
    let c = sc.emit_chunk().unwrap();
    assert!(c.length >= 1);
    if c.length < 3 {
        assert!(!sc.emit_fits());
    }
}

#[test]
fn reads_are_offered_only_below_max_size() {
    let config = Config { min_size: 4, avg_size: 8, max_size: 16, content_hash_mode: ContentHashMode::Skip };
    let data = lcg_bytes(500, 9);
    let mut sc = StreamingChunker::new(config);
    let mut offset = 0;
    loop {
        match sc.poll() {
            StreamStep::Finished => break,
            StreamStep::NeedsInput => {
                let cap = sc.read_capacity();
                assert!(cap > 16 && cap <= 32);
                let n = cap.min(7).min(data.len() - offset);
                sc.fill_buffer(Some(&data[offset..offset + n]));
                offset += n;
                continue;
            }
            StreamStep::Ready => {}
        }
        match sc.emit_chunk() {
            Some(c) => {
                assert!(c.length >= 1 && c.length <= 16);
                assert_eq!(c.content_hash, [0u8; 32]);
            }
            None => break,
        }
    }
    assert_eq!(offset, data.len());
}

#[test]
fn boundaries_do_not_depend_on_read_sizes() {
    let data = lcg_bytes(300_000, 23);
    let key = |v: Vec<(Chunk, Vec<u8>)>| -> Vec<(usize, u64, [u8; 32])> {
        v.into_iter().map(|(c, _)| (c.length, c.rolling_hash, c.content_hash)).collect()
    };
    let reference = key(stream_chunks(&data, Config::default(), 1 << 20));
    for read_size in [1, 7, 1000, 4096, 40_000] {
        assert_eq!(key(stream_chunks(&data, Config::default(), read_size)), reference);
    }
    let tiny = Config { min_size: 4, avg_size: 4, max_size: 4, content_hash_mode: ContentHashMode::Blake3 };
    let small = lcg_bytes(50, 1);
    let a = key(stream_chunks(&small, tiny, 1));
    let b = key(stream_chunks(&small, tiny, 8));
    assert_eq!(a, b);
    assert!(a.iter().all(|(len, h, _)| *len == 4 || *h == 0));
}

#[test]
fn every_chunk_but_the_last_reaches_min_size() {
    let data = lcg_bytes(200_000, 29);
    let config = Config::default();
    let chunks = stream_chunks(&data, config, 3000);
    for (i, (c, _)) in chunks.iter().enumerate() {
        assert!(c.length <= config.max_size);
        if i + 1 < chunks.len() {
            assert!(c.length >= config.min_size);
        }
    }
}
