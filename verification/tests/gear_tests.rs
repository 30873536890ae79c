use resplix_cdc::gear::{
    find_cutpoint, find_cutpoint_avx2, find_cutpoint_scalar, generate_gear_table, splitmix64,
    update_hash, GEAR_SEED_OFFSET, GEAR_TABLE,
};

fn lcg_bytes(n: usize, seed: u64) -> Vec<u8> {
    let mut data = vec![0u8; n];
    let mut rng = seed;
    for byte in data.iter_mut() {
        rng = rng.wrapping_mul(6364136223846793005).wrapping_add(1442695040888963407);
        *byte = (rng >> 33) as u8;
    }
    data
}

#[test]
fn splitmix64_known_value() {
    assert_eq!(splitmix64(0), 0xe220a8397b1dcdaf);
}

#[test]
fn gear_table_first_entry() {
    assert_eq!(GEAR_TABLE[0], 0x1ac046dda8e86e2a);
    assert_eq!(GEAR_TABLE[1], 0x63cfc62a2b097592);
    assert_eq!(GEAR_TABLE[0], splitmix64(GEAR_SEED_OFFSET));
}

#[test]
fn generated_table_equals_constant_table() {
    let table = generate_gear_table();
    assert_eq!(table, GEAR_TABLE);
}

#[test]
fn update_hash_exact_values() {
    assert_eq!(update_hash(0, 0), 0x1ac046dda8e86e2a);
    assert_eq!(update_hash(1, 255), 0x3156db5ae5c8aa4d);
    // The top bit is shifted out.
    assert_eq!(update_hash(1u64 << 63, 0), GEAR_TABLE[0]);
}

#[test]
fn gear_hash_forgets_state_after_64_bytes() {
    let data = lcg_bytes(100, 7);
    let mut h1 = 0u64;
    let mut h2 = 0xFFFF_FFFF_FFFF_FFFFu64;
    for &b in &data[..64] {
        h1 = update_hash(h1, b);
        h2 = update_hash(h2, b);
    }
    assert_eq!(h1, h2);
    for &b in &data[64..] {
        h1 = update_hash(h1, b);
        h2 = update_hash(h2, b);
    }
    assert_eq!(h1, h2);
}

#[test]
fn gear_hash_remembers_state_before_64_bytes() {
    let data = lcg_bytes(63, 7);
    let mut h1 = 0u64;
    let mut h2 = 1u64;
    for &b in &data {
        h1 = update_hash(h1, b);
        h2 = update_hash(h2, b);
    }
    assert_ne!(h1, h2);
}

#[test]
fn cutpoint_exact_values() {
    let data: Vec<u8> = (1..=10).collect();
    assert_eq!(find_cutpoint_scalar(&data, 0, 10, 0x3), (5, 4349094939782935428));
    assert_eq!(find_cutpoint_scalar(&data, 2, 10, 0x7), (3, 2502454546256647904));
    assert_eq!(find_cutpoint_avx2(&data, 0, 10, 0x3), (5, 4349094939782935428));
    assert_eq!(find_cutpoint(&data, 2, 10, 0x7), (3, 2502454546256647904));
}

#[test]
fn cutpoint_on_random_data() {
    let data = lcg_bytes(64 * 1024, 0xCAFEBABE);
    let r = find_cutpoint_scalar(&data, 0, data.len(), 0x0003590703530000);
    assert_eq!(r, (2636, 1940108301094128061));
}

#[test]
fn cutpoint_mask_zero_cuts_after_first_byte() {
    let data = lcg_bytes(32, 1);
    let r = find_cutpoint_scalar(&data, 5, 20, 0);
    assert_eq!(r, (6, update_hash(0, data[5])));
}

#[test]
fn cutpoint_without_cut_reaches_max() {
    let data = lcg_bytes(32, 1);
    let mut h = 0u64;
    for &b in &data[4..9] {
        h = update_hash(h, b);
    }
    // A full mask is met only by a zero hash.
    let r = find_cutpoint_scalar(&data, 4, 9, u64::MAX);
    assert_eq!(r, (9, h));
    assert_eq!(find_cutpoint_avx2(&data, 4, 9, u64::MAX), (9, h));
}

#[test]
fn cutpoint_empty_range() {
    let data = lcg_bytes(8, 1);
    assert_eq!(find_cutpoint_scalar(&data, 5, 5, 0), (5, 0));
    assert_eq!(find_cutpoint_scalar(&data, 6, 3, 0), (3, 0));
    assert_eq!(find_cutpoint_avx2(&data, 6, 3, 0), (3, 0));
}

#[test]
fn cutpoint_search_past_data_end_stops_at_cut() {
    // max beyond the data is fine when a cut occurs inside the data
    let data = lcg_bytes(8, 1);
    assert_eq!(find_cutpoint_scalar(&data, 0, 100, 0), (1, update_hash(0, data[0])));
}

#[test]
fn four_way_search_matches_scalar_on_many_offsets() {
    let data = lcg_bytes(20_000, 99);
    for start in 0..40 {
        for mask in [0x0003590703530000u64, 0x0000d90003530000, 0xff, 0x1] {
            let end = data.len() - (start % 7);
            assert_eq!(
                find_cutpoint_scalar(&data, start, end, mask),
                find_cutpoint_avx2(&data, start, end, mask)
            );
        }
    }
}

#[test]
fn cut_decision_depends_on_last_64_bytes_only() {
    let tail = lcg_bytes(64, 5);
    let mut a = lcg_bytes(10, 6);
    a.extend_from_slice(&tail);
    let mut b = lcg_bytes(300, 8);
    b.extend_from_slice(&tail);
    let ra = find_cutpoint_scalar(&a, 0, a.len(), u64::MAX);
    let rb = find_cutpoint_scalar(&b, 0, b.len(), u64::MAX);
    assert_eq!(ra.1, rb.1);
}

#[test]
fn cutpoint_depends_only_on_its_range() {
    let data = lcg_bytes(5000, 3);
    let mask = 0xffu64;
    let (p, h) = find_cutpoint_scalar(&data, 1000, 3000, mask);
    let (q, g) = find_cutpoint_scalar(&data[1000..3000], 0, 2000, mask);
    assert_eq!((p - 1000, h), (q, g));
    let mut edited = data.clone();
    edited[999] ^= 0x55;
    edited[3000] ^= 0x55;
    assert_eq!(find_cutpoint_scalar(&edited, 1000, 3000, mask), (p, h));
}

#[test]
fn rolling_hash_shift_form() {
    let data = lcg_bytes(80, 4);
    for n in [0usize, 1, 5, 63, 64, 70] {
        let h = 0x1234_5678_9abc_def1u64;
        let mut from_h = h;
        let mut from_zero = 0u64;
        for &b in &data[..n] {
            from_h = update_hash(from_h, b);
            from_zero = update_hash(from_zero, b);
        }
        let shifted = if n >= 64 { 0 } else { h << n };
        assert_eq!(from_h, shifted.wrapping_add(from_zero));
    }
}
