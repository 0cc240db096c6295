use railcar::rng::{
    boolean, context_byte_seq, extend_context_byte_seq, next_u64, number, size, string, BytesRand,
    Distribution, Prng, Rand, WEIGHT_ONE,
};
use railcar::{DEFAULT_CONTEXT_LENGTH, MAX_RANDOM_NUMBER, MAX_RANDOM_SIZE};

#[test]
fn test_next_u64_little_endian() {
    let bytes = [1u8, 0, 0, 0, 0, 0, 0, 0];
    assert_eq!(next_u64(&bytes), 1);

    let bytes = [0u8, 1, 0, 0, 0, 0, 0, 0];
    assert_eq!(next_u64(&bytes), 256);
}

#[test]
fn test_bytes_rand_consumes_buffer_first() {
    // 24 bytes = 8 (seed) + 16 remaining; the first two draws read the
    // remaining buffered words.
    let bytes: Vec<u8> = (0..24).collect();
    let mut rand = BytesRand::new(&bytes);

    let first = rand.next();
    let expected = next_u64(&bytes[8..16]);
    assert_eq!(first, expected);

    let second = rand.next();
    let expected = next_u64(&bytes[16..24]);
    assert_eq!(second, expected);
}

#[test]
fn test_bytes_rand_falls_back_to_std_rand() {
    // 15 bytes = 8 (seed) + 7 remaining: not a full word, so the very first
    // draw falls back to the seeded generator.
    let bytes: Vec<u8> = (0..15).collect();
    let seed = next_u64(&bytes[0..8]);
    let mut rand = BytesRand::new(&bytes);
    let mut expected_rand = Prng::with_seed(seed);

    let fallback = rand.next();
    assert_eq!(fallback, expected_rand.next());
}

#[test]
fn test_bytes_rand_deterministic() {
    let bytes: Vec<u8> = (0..64).collect();
    let mut a = BytesRand::new(&bytes);
    let mut b = BytesRand::new(&bytes);

    for _ in 0..20 {
        assert_eq!(a.next(), b.next());
    }
}

#[test]
fn test_number_range() {
    let mut rand = Rand::with_seed(42);
    for _ in 0..1000 {
        let v = number(&mut rand);
        assert!(v < MAX_RANDOM_NUMBER);
    }
}

#[test]
fn test_string_ascii_printable() {
    let mut rand = Rand::with_seed(42);
    for _ in 0..100 {
        let s = string(&mut rand);
        for ch in s.chars() {
            assert!(
                (32..=126).contains(&(ch as u32)),
                "char '{}' (0x{:02x}) is not printable ASCII",
                ch,
                ch as u32
            );
        }
    }
}

#[test]
fn test_string_length_bounded() {
    let mut rand = Rand::with_seed(42);
    for _ in 0..100 {
        let s = string(&mut rand);
        assert!(s.len() <= MAX_RANDOM_SIZE + 1);
    }
}

#[test]
fn test_boolean_produces_both_values() {
    let mut rand = Rand::with_seed(42);
    let mut seen_true = false;
    let mut seen_false = false;
    for _ in 0..100 {
        if boolean(&mut rand) {
            seen_true = true;
        } else {
            seen_false = true;
        }
        if seen_true && seen_false {
            break;
        }
    }
    assert!(seen_true && seen_false, "boolean should produce both values");
}

#[test]
fn test_size_range() {
    let mut rand = Rand::with_seed(42);
    for _ in 0..1000 {
        let s = size(&mut rand);
        assert!(s <= MAX_RANDOM_SIZE + 1);
    }
}

#[test]
fn test_context_byte_seq_default_length() {
    let mut rand = Rand::with_seed(42);
    let seq = context_byte_seq(&mut rand, None);
    assert_eq!(seq.len(), DEFAULT_CONTEXT_LENGTH);
}

#[test]
fn test_context_byte_seq_custom_length() {
    let mut rand = Rand::with_seed(42);
    let seq = context_byte_seq(&mut rand, Some(64));
    assert_eq!(seq.len(), 64);
}

#[test]
fn test_context_byte_seq_deterministic() {
    let mut a = Rand::with_seed(99);
    let mut b = Rand::with_seed(99);
    assert_eq!(
        context_byte_seq(&mut a, Some(32)),
        context_byte_seq(&mut b, Some(32))
    );
}

#[test]
fn test_extend_context_byte_seq_grows() {
    let mut rand = Rand::with_seed(42);
    let mut bytes = vec![0xAA; 8];
    extend_context_byte_seq(&mut rand, &mut bytes, Some(32));
    assert_eq!(bytes.len(), 32);
    assert_eq!(&bytes[..8], &[0xAA; 8]);
}

#[test]
fn test_extend_context_byte_seq_no_shrink() {
    let mut rand = Rand::with_seed(42);
    let mut bytes = vec![0xBB; 64];
    let original = bytes.clone();
    extend_context_byte_seq(&mut rand, &mut bytes, Some(32));
    // when the buffer is already long enough, it is cut to the target
    assert_eq!(bytes.len(), 32);
    assert_eq!(&bytes[..], &original[..32]);
}

#[test]
fn test_redistribute_sums_to_one() {
    let mut rand = Rand::with_seed(42);
    let mut dist: Distribution<u32> = Distribution {
        entries: vec![(0, 0), (1, 0), (2, 0)],
    };
    dist.redistribute(&mut rand);
    let total: u64 = dist.entries.iter().map(|e| e.1).sum();
    assert_eq!(total, WEIGHT_ONE, "weights must sum to exactly one unit");
}

#[test]
fn test_redistribute_all_non_negative() {
    for seed in 0..100u64 {
        let mut rand = Rand::with_seed(seed);
        let mut dist: Distribution<u32> = Distribution {
            entries: vec![(0, 0), (1, 0), (2, 0), (3, 0)],
        };
        dist.redistribute(&mut rand);
        let total: u64 = dist.entries.iter().map(|e| e.1).sum();
        assert_eq!(total, WEIGHT_ONE);
    }
}

#[test]
fn test_redistribute_single_entry() {
    let mut rand = Rand::with_seed(42);
    let mut dist: Distribution<u32> = Distribution {
        entries: vec![(7, 0)],
    };
    dist.redistribute(&mut rand);
    assert_eq!(dist.entries[0].1, WEIGHT_ONE);
}

#[test]
fn test_distribution_sample_empty_errors() {
    let mut rand = Rand::with_seed(42);
    let dist: Distribution<u32> = Distribution { entries: vec![] };
    assert!(dist.sample_index(&mut rand).is_err());
}

#[test]
fn test_distribution_sample_single_element() {
    let mut rand = Rand::with_seed(42);
    let dist: Distribution<u32> = Distribution {
        entries: vec![(11, WEIGHT_ONE)],
    };
    for _ in 0..100 {
        let idx = dist.sample_index(&mut rand).unwrap();
        assert_eq!(dist.entries[idx].0, 11);
    }
}

#[test]
fn test_distribution_sample_respects_weights() {
    let mut rand = Rand::with_seed(42);
    let heavy = WEIGHT_ONE / 100 * 99;
    let light = WEIGHT_ONE - heavy;
    let dist: Distribution<u32> = Distribution {
        entries: vec![(1, heavy), (2, light)],
    };
    let mut heavy_count = 0;
    let n = 1000;
    for _ in 0..n {
        let idx = dist.sample_index(&mut rand).unwrap();
        if dist.entries[idx].0 == 1 {
            heavy_count += 1;
        }
    }
    assert!(
        heavy_count > 900,
        "heavy was sampled only {} / {} times",
        heavy_count,
        n
    );
}

#[test]
fn test_distribution_sample_deterministic() {
    let mut a = Rand::with_seed(77);
    let mut b = Rand::with_seed(77);
    let quarter = WEIGHT_ONE / 4;
    let dist: Distribution<u32> = Distribution {
        entries: vec![(1, quarter), (2, quarter), (3, quarter), (4, quarter)],
    };
    for _ in 0..100 {
        let va = dist.sample_index(&mut a).unwrap();
        let vb = dist.sample_index(&mut b).unwrap();
        assert_eq!(va, vb);
    }
}

#[test]
fn test_distribution_sample_first_prefix_exceeding_draw() {
    // a zero-weight head is never chosen: the walk returns the first entry
    // whose running total exceeds the draw
    let dist: Distribution<u32> = Distribution {
        entries: vec![(1, 0), (2, WEIGHT_ONE)],
    };
    for seed in 0..50u64 {
        let mut rand = Rand::with_seed(seed);
        assert_eq!(dist.sample_index(&mut rand).unwrap(), 1);
    }
}

#[test]
fn test_redistribute_keeps_keys_in_order() {
    let mut rand = Rand::with_seed(9);
    let mut dist: Distribution<u32> = Distribution {
        entries: vec![(7, 0), (8, 0), (9, 0)],
    };
    dist.redistribute(&mut rand);
    let keys: Vec<u32> = dist.entries.iter().map(|e| e.0).collect();
    assert_eq!(keys, vec![7, 8, 9]);
    let total: u64 = dist.entries.iter().map(|e| e.1).sum();
    assert_eq!(total, WEIGHT_ONE);
}
