use gta_core::noise::{hash11, hash2, hash2_64, hash3, hash3_64, lane_hash, Noise2, Noise3};

/// Hash to a float in `0..1`, as the noise fields form it.
fn unit(h: u32) -> f32 {
    (h >> 8) as f32 * (1.0 / (1u32 << 24) as f32)
}

#[test]
fn hash_is_deterministic() {
    assert_eq!(hash2(3, 7), hash2(3, 7));
    assert_ne!(hash2(3, 7), hash2(7, 3));
    assert_ne!(hash3(1, 2, 3), hash3(1, 2, 4));
}

#[test]
fn lattice_hashes_are_injective_over_a_city_block() {
    let mut seen = std::collections::HashSet::new();
    for i in -300..400i32 {
        for j in -300..400i32 {
            assert!(seen.insert(hash2_64(i, j)), "hash2_64 collision at {i},{j}");
        }
    }
    let mut seen3 = std::collections::HashSet::new();
    for i in 0..120i32 {
        for j in 0..120i32 {
            for k in 0..120i32 {
                assert!(seen3.insert(hash3_64(i, j, k)), "hash3_64 collision at {i},{j},{k}");
            }
        }
    }
}

#[test]
fn hash32_is_well_distributed() {
    let mut seen = std::collections::HashSet::new();
    let mut collisions = 0usize;
    let mut sum = 0.0f64;
    let mut buckets = [0u32; 16];
    for i in 0..400i32 {
        for j in 0..400i32 {
            let h = hash2(i, j);
            if !seen.insert(h) {
                collisions += 1;
            }
            let v = unit(h);
            sum += v as f64;
            buckets[((v * 16.0) as usize).min(15)] += 1;
        }
    }
    let total = seen.len() + collisions;
    let expected = (total * total) as f64 / (2.0 * u32::MAX as f64);
    assert!((collisions as f64) < expected * 4.0 + 1.0, "too many collisions {collisions} vs {expected}");
    let mean = sum / total as f64;
    assert!((mean - 0.5).abs() < 0.02, "mean {mean}");
    let expected_per_bucket = total as f64 / 16.0;
    for b in buckets {
        assert!((b as f64 - expected_per_bucket).abs() < expected_per_bucket * 0.25, "bucket {b}");
    }
}

#[test]
fn hashes_have_known_values() {
    assert_eq!(hash11(5), 1548080446);
    assert_eq!(hash11(-1), 1734902346);
    assert_eq!(hash2_64(3, 7), 1913759336714778233);
    assert_eq!(hash2(3, 7), 712554105);
    assert_eq!(hash2(7, 3), 2344776219);
    assert_eq!(hash3(1, 2, 3), 1155466422);
    assert_eq!(hash3(1, 2, 4), 130490540);
    assert_eq!(hash3_64(-4, 9, -2), 4162979986806706777);
    assert_eq!(hash2(3, 7), hash2_64(3, 7) as u32);
}

#[test]
fn hash11_is_injective_on_a_range() {
    let mut seen = std::collections::HashSet::new();
    for i in -20_000..20_000i32 {
        assert!(seen.insert(hash11(i)));
    }
}

#[test]
fn seeded_fields_carry_their_seed() {
    assert_eq!(Noise2::new(9).seed, 9);
    assert_eq!(Noise3::new(10).seed, 10);
    assert_eq!(Noise2::new(7), Noise2::new(7));
    assert_ne!(Noise2::new(7), Noise2::new(8));
    assert_eq!(Noise2::default().seed, 0);
    assert_eq!(Noise2::new(9).index_hash(4), 1035980785);
    assert_eq!(Noise2::new(9).index_hash(4), hash11((4u32 ^ 9) as i32));
    assert_eq!(lane_hash(9, 3), 36249310);
    assert_ne!(lane_hash(9, 3), lane_hash(9, 4));
}
