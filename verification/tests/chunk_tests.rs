use resplix_cdc::chunk::{can_chunk, chunk_end, Chunk, Chunker, FastCDC, MASK_L, MASK_S};
use resplix_cdc::{Config, ContentHashMode};

fn lcg_bytes(n: usize, seed: u64) -> Vec<u8> {
    let mut data = vec![0u8; n];
    let mut rng = seed;
    for byte in data.iter_mut() {
        rng = rng.wrapping_mul(6364136223846793005).wrapping_add(1442695040888963407);
        *byte = (rng >> 33) as u8;
    }
    data
}

fn all_chunks(data: &[u8], config: Config) -> Vec<Chunk> {
    let mut cdc = FastCDC::new(data, config);
    let mut out = Vec::new();
    while let Some(c) = cdc.next_chunk() {
        out.push(c);
    }
    out
}

#[test]
fn default_config_values() {
    let c = Config::default();
    assert_eq!(c.min_size, 8192);
    assert_eq!(c.avg_size, 16384);
    assert_eq!(c.max_size, 32768);
    assert_eq!(c.content_hash_mode, ContentHashMode::Blake3);
    assert_ne!(c.content_hash_mode, ContentHashMode::Skip);
}

#[test]
fn masks_have_expected_values() {
    assert_eq!(MASK_S, 0x0003590703530000);
    assert_eq!(MASK_L, 0x0000d90003530000);
}

#[test]
fn zero_data_chunks_exactly() {
    let data = vec![0u8; 100 * 1024];
    let chunks = all_chunks(&data, Config::default());
    let lens: Vec<usize> = chunks.iter().map(|c| c.length).collect();
    assert_eq!(lens, vec![32768, 32768, 32768, 4096]);
    assert_eq!(chunks[0].rolling_hash, 16519125515359457750);
    assert_eq!(chunks[3].rolling_hash, 0);
    let offsets: Vec<usize> = chunks.iter().map(|c| c.offset).collect();
    assert_eq!(offsets, vec![0, 32768, 65536, 98304]);
}

#[test]
fn random_data_chunks_exactly() {
    let data = lcg_bytes(256 * 1024, 0xDEADBEEF);
    let chunks = all_chunks(&data, Config::default());
    let lens: Vec<usize> = chunks.iter().map(|c| c.length).collect();
    assert_eq!(
        lens,
        vec![
            18139, 18249, 19916, 18051, 19381, 10913, 16407, 17617, 18058, 16794, 16482, 16700,
            18167, 10096, 19004, 8170
        ]
    );
}

#[test]
fn chunks_tile_the_data() {
    let data = lcg_bytes(200_000, 3);
    let chunks = all_chunks(&data, Config::default());
    let mut expected_offset = 0;
    for c in &chunks {
        assert_eq!(c.offset, expected_offset);
        assert!(c.length > 0);
        expected_offset += c.length;
    }
    assert_eq!(expected_offset, data.len());
}

#[test]
fn content_hash_is_blake3_of_chunk_bytes() {
    let data = lcg_bytes(70_000, 11);
    let chunks = all_chunks(&data, Config::default());
    for c in &chunks {
        let expected = blake3::hash(&data[c.offset..c.offset + c.length]);
        assert_eq!(&c.content_hash, expected.as_bytes());
        assert_ne!(c.content_hash[..], data[c.offset..c.offset + 32]);
    }
}

#[test]
fn empty_data_has_no_chunks() {
    let data: Vec<u8> = Vec::new();
    let mut cdc = FastCDC::new(&data, Config::default());
    assert!(cdc.next_chunk().is_none());
    assert!(cdc.next_chunk().is_none());
}

#[test]
fn short_data_is_one_chunk() {
    let data = lcg_bytes(8192, 5);
    let chunks = all_chunks(&data, Config::default());
    assert_eq!(chunks.len(), 1);
    assert_eq!(chunks[0].offset, 0);
    assert_eq!(chunks[0].length, 8192);
    assert_eq!(chunks[0].rolling_hash, 0);
}

#[test]
fn chunk_end_matches_next_chunk() {
    let data = lcg_bytes(100_000, 21);
    let config = Config::default();
    let chunks = all_chunks(&data, config);
    for c in &chunks {
        let (end, hash) = chunk_end(&data, c.offset, config);
        assert_eq!(end, c.offset + c.length);
        assert_eq!(hash, c.rolling_hash);
    }
}

#[test]
fn empty_small_range_defers_to_large_mask() {
    // With min_size >= avg_size the small-mask search range is empty, so the
    // large-mask search from start + avg_size decides.
    let data = lcg_bytes(1000, 2);
    let config = Config { min_size: 300, avg_size: 100, max_size: 500, content_hash_mode: ContentHashMode::Skip };
    assert_eq!(chunk_end(&data, 0, config), (500, 11143262230349540133));
    let equal = Config { min_size: 100, avg_size: 100, max_size: 500, content_hash_mode: ContentHashMode::Skip };
    assert_eq!(chunk_end(&data, 0, equal), (500, 11143262230349540133));
}

#[test]
fn min_equal_avg_chunks_exactly() {
    let data = lcg_bytes(100_000, 21);
    let config = Config { min_size: 8192, avg_size: 8192, max_size: 32768, content_hash_mode: ContentHashMode::Blake3 };
    let chunks = all_chunks(&data, config);
    let lens: Vec<usize> = chunks.iter().map(|c| c.length).collect();
    assert_eq!(lens, vec![8471, 9166, 8563, 8270, 15080, 9215, 8649, 9025, 9791, 8309, 5461]);
    assert_eq!(chunks[0].rolling_hash, 18254532124212739227);
}

#[test]
fn skip_mode_records_zero_content_hash() {
    let data = lcg_bytes(70_000, 11);
    let skip = Config { content_hash_mode: ContentHashMode::Skip, ..Config::default() };
    let a = all_chunks(&data, skip);
    let b = all_chunks(&data, Config::default());
    assert_eq!(a.len(), b.len());
    for (x, y) in a.iter().zip(b.iter()) {
        assert_eq!((x.offset, x.length, x.rolling_hash), (y.offset, y.length, y.rolling_hash));
        assert_eq!(x.content_hash, [0u8; 32]);
        assert_ne!(y.content_hash, [0u8; 32]);
    }
}

#[test]
fn can_advance_checks_the_current_chunk() {
    let data = lcg_bytes(10, 1);
    let huge = Config { max_size: usize::MAX, ..Config::default() };
    let mut cdc = FastCDC::new(&data, huge);
    // All ten bytes fit under min_size, so no offset is computed.
    assert!(cdc.can_advance());
    assert!(cdc.next_chunk().is_some());
    assert!(cdc.can_advance());
    assert!(cdc.next_chunk().is_none());
    let long = lcg_bytes(20_000, 1);
    let mut cdc = FastCDC::new(&long, huge);
    assert!(cdc.can_advance());
    assert_eq!(cdc.next_chunk().unwrap().length, 8654);
    // The next chunk would compute 8654 + usize::MAX.
    assert!(!cdc.can_advance());
}

#[test]
fn min_above_max_gives_long_last_chunk() {
    let data = lcg_bytes(8, 2);
    let config = Config { min_size: 10, avg_size: 5, max_size: 5, content_hash_mode: ContentHashMode::Blake3 };
    let chunks = all_chunks(&data, config);
    assert_eq!(chunks.len(), 1);
    assert_eq!(chunks[0].length, 8);
}

#[test]
fn chunks_are_deterministic() {
    let data = lcg_bytes(150_000, 77);
    assert_eq!(all_chunks(&data, Config::default()), all_chunks(&data, Config::default()));
}

#[test]
fn can_chunk_conditions() {
    let d = Config::default();
    assert!(can_chunk(&lcg_bytes(100, 1), d));
    assert!(can_chunk(&lcg_bytes(1 << 20, 1), d));
    assert!(can_chunk(&[], d));
    let no_max = Config { max_size: 0, ..d };
    assert!(!can_chunk(&lcg_bytes(10_000, 1), no_max));
    assert!(can_chunk(&lcg_bytes(8192, 1), no_max));
    // An average size of zero still makes progress through the large-mask search.
    let no_avg = Config { avg_size: 0, ..d };
    assert!(can_chunk(&lcg_bytes(10_000, 1), no_avg));
    let huge = Config { max_size: usize::MAX, ..d };
    // Only the chunk starts actually reached matter: one large chunk, then a short tail.
    assert!(can_chunk(&lcg_bytes(10_000, 1), huge));
    assert!(!can_chunk(&lcg_bytes(20_000, 1), huge));
    assert!(can_chunk(&lcg_bytes(1, 1), huge));
}

#[test]
fn chunks_depend_only_on_their_window() {
    let data1 = lcg_bytes(120_000, 31);
    let mut data2 = data1.clone();
    let m = 90_000;
    for b in data2[m..].iter_mut() {
        *b ^= 0xA5;
    }
    data2.extend_from_slice(&[1, 2, 3]);
    let c = Config::default();
    let a = all_chunks(&data1, c);
    let b = all_chunks(&data2, c);
    let mut compared = 0;
    for (i, k) in a.iter().enumerate() {
        if k.offset + c.max_size <= m {
            assert_eq!(*k, b[i]);
            compared += 1;
        }
    }
    assert!(compared >= 2);
}
