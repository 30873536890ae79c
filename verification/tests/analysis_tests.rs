use resplix_cdc::analysis::{
    chunk_bytes, length_sum_fits, chunk_stats, collect_chunks, corrupted_copy, get_duplicates, insert_at_quarter,
    swap_halves, ChunkStats, CORRUPTION_INDEX,
};
use resplix_cdc::chunk::Chunk;
use resplix_cdc::Config;

fn lcg_bytes(n: usize, seed: u64) -> Vec<u8> {
    let mut data = vec![0u8; n];
    let mut rng = seed;
    for byte in data.iter_mut() {
        rng = rng.wrapping_mul(6364136223846793005).wrapping_add(1442695040888963407);
        *byte = (rng >> 33) as u8;
    }
    data
}

fn chunk_with(length: usize, tag: u8) -> Chunk {
    Chunk { offset: 0, length, rolling_hash: 0, content_hash: [tag; 32] }
}

#[test]
fn chunk_bytes_counts_chunks() {
    assert_eq!(chunk_bytes(&vec![0u8; 100 * 1024], Config::default()), 4);
    assert_eq!(chunk_bytes(&lcg_bytes(256 * 1024, 0xDEADBEEF), Config::default()), 16);
    assert_eq!(chunk_bytes(&[], Config::default()), 0);
    assert_eq!(chunk_bytes(&[1, 2, 3], Config::default()), 1);
}

#[test]
fn collect_chunks_matches_count() {
    let data = lcg_bytes(256 * 1024, 0xDEADBEEF);
    let chunks = collect_chunks(&data, Config::default());
    assert_eq!(chunks.len(), 16);
    assert_eq!(chunks[0].offset, 0);
    assert_eq!(chunks[1].offset, 18139);
    let total: usize = chunks.iter().map(|c| c.length).sum();
    assert_eq!(total, data.len());
}

#[test]
fn duplicates_of_identical_data_are_all_chunks() {
    let data = lcg_bytes(100_000, 9);
    let chunks = collect_chunks(&data, Config::default());
    assert_eq!(get_duplicates(&chunks, &chunks), chunks.len());
}

#[test]
fn duplicates_count_matching_hashes_only() {
    let a = vec![chunk_with(1, 1), chunk_with(2, 2)];
    let b = vec![chunk_with(3, 2), chunk_with(4, 3), chunk_with(5, 2), chunk_with(6, 1)];
    assert_eq!(get_duplicates(&a, &b), 3);
    assert_eq!(get_duplicates(&b, &a), 2);
    assert_eq!(get_duplicates(&[], &b), 0);
    assert_eq!(get_duplicates(&a, &[]), 0);
}

#[test]
fn duplicates_after_insertion_keep_most_chunks() {
    let data = lcg_bytes(200_000, 4);
    let inserted = insert_at_quarter(&data, b"hello world");
    let c1 = collect_chunks(&data, Config::default());
    let c2 = collect_chunks(&inserted, Config::default());
    let dups = get_duplicates(&c1, &c2);
    assert!(dups >= 1);
    assert!(dups < c2.len());
}

#[test]
fn stats_of_lengths() {
    let chunks = vec![chunk_with(10, 0), chunk_with(3, 0), chunk_with(8, 0)];
    assert_eq!(
        chunk_stats(&chunks),
        Some(ChunkStats { count: 3, min: 3, max: 10, sum: 21, avg: 7 })
    );
    assert_eq!(chunk_stats(&[]), None);
    let one = vec![chunk_with(5, 0)];
    assert_eq!(chunk_stats(&one), Some(ChunkStats { count: 1, min: 5, max: 5, sum: 5, avg: 5 }));
}

#[test]
fn corrupted_copy_flips_one_byte() {
    let data = lcg_bytes(6000, 1);
    let c = corrupted_copy(&data);
    assert_eq!(c.len(), data.len());
    assert_eq!(c[CORRUPTION_INDEX], data[5000] ^ 0xFF);
    assert_eq!(&c[..5000], &data[..5000]);
    assert_eq!(&c[5001..], &data[5001..]);
    let short = lcg_bytes(5000, 1);
    assert_eq!(corrupted_copy(&short), short);
}

#[test]
fn swap_halves_reorders() {
    assert_eq!(swap_halves(&[1, 2, 3, 4, 5]), vec![3, 4, 5, 1, 2]);
    assert_eq!(swap_halves(&[1, 2, 3, 4]), vec![3, 4, 1, 2]);
    assert_eq!(swap_halves(&[]), Vec::<u8>::new());
    assert_eq!(swap_halves(&[7]), vec![7]);
}

#[test]
fn insertion_at_quarter() {
    assert_eq!(insert_at_quarter(b"abcdefgh", b"XY"), b"abXYcdefgh".to_vec());
    assert_eq!(insert_at_quarter(b"abc", b"XY"), b"XYabc".to_vec());
    assert_eq!(insert_at_quarter(b"abcdefgh", b""), b"abcdefgh".to_vec());
}

#[test]
fn length_sum_fits_detects_overflow() {
    assert!(length_sum_fits(&[chunk_with(3, 0), chunk_with(4, 0)]));
    assert!(length_sum_fits(&[]));
    assert!(length_sum_fits(&[chunk_with(usize::MAX, 0)]));
    assert!(!length_sum_fits(&[chunk_with(usize::MAX, 0), chunk_with(1, 0)]));
}

#[test]
fn duplicates_ignore_order_and_grow_with_first_list() {
    let a = vec![chunk_with(1, 1), chunk_with(2, 2), chunk_with(9, 9)];
    let b = vec![chunk_with(3, 2), chunk_with(4, 3), chunk_with(5, 9), chunk_with(6, 1)];
    let b_rev: Vec<Chunk> = b.iter().rev().cloned().collect();
    let a_rot = vec![a[2], a[0], a[1]];
    assert_eq!(get_duplicates(&a, &b), 3);
    assert_eq!(get_duplicates(&a, &b_rev), 3);
    assert_eq!(get_duplicates(&a_rot, &b), 3);
    let small = vec![chunk_with(1, 1)];
    assert_eq!(get_duplicates(&small, &b), 1);
    let mut grown = small.clone();
    grown.push(chunk_with(7, 3));
    assert_eq!(get_duplicates(&grown, &b), 2);
}
