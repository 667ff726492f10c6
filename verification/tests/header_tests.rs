use fpoc::header::{Argon2Cache, BlockHeader};
use fpoc::target::Target;

fn sample_header() -> BlockHeader {
    BlockHeader {
        version: 1,
        prev_hash: [1u8; 32],
        merkle_root: [2u8; 32],
        timestamp: 1_741_353_600,
        difficulty: Target::genesis(),
        nonce: 5,
        epoch_index: 3,
    }
}

#[test]
fn header_encoding_is_120_little_endian_bytes() {
    let h = sample_header();
    let b = h.to_bytes();
    assert_eq!(b.len(), 120);
    assert_eq!(&b[0..4], &1u32.to_le_bytes());
    assert_eq!(&b[4..36], &[1u8; 32]);
    assert_eq!(&b[36..68], &[2u8; 32]);
    assert_eq!(&b[68..76], &1_741_353_600u64.to_le_bytes());
    assert_eq!(&b[76..108], &Target::genesis().0);
    assert_eq!(&b[108..116], &5u64.to_le_bytes());
    assert_eq!(&b[116..120], &3u32.to_le_bytes());
}

#[test]
fn new_header_starts_with_zero_root_and_nonce() {
    let h = BlockHeader::new([9u8; 32], 4, Target::genesis(), 1_000);
    assert_eq!(h.version, 1);
    assert_eq!(h.prev_hash, [9u8; 32]);
    assert_eq!(h.merkle_root, [0u8; 32]);
    assert_eq!(h.timestamp, 1_000);
    assert_eq!(h.difficulty.0, Target::genesis().0);
    assert_eq!(h.nonce, 0);
    assert_eq!(h.epoch_index, 4);
}

#[test]
fn timestamps_must_follow_the_median_and_not_run_ahead() {
    let h = sample_header();
    let now = h.timestamp;
    assert!(h.validate_timestamp(None, None, now));
    assert!(h.validate_timestamp(Some(now - 1), None, now));
    // The previous block's timestamp is not part of the rule.
    assert!(h.validate_timestamp(Some(now), None, now));
    assert!(h.validate_timestamp(Some(now + 100), Some(now - 1), now));
    assert!(h.validate_timestamp(None, None, now - 7_199));
    assert!(!h.validate_timestamp(None, None, now - 7_200));
    assert!(h.validate_timestamp(None, Some(now - 1), now));
    assert!(!h.validate_timestamp(None, Some(now), now));
    assert!(!h.validate_timestamp(Some(now - 5), Some(now + 3), now));
}

#[test]
fn prefilter_passes_prefixes_at_or_below_the_target() {
    let bytes = sample_header().to_bytes();
    // The first eight bytes of SHA-256(header ‖ nonce) read big-endian:
    // nonce 1 gives 6700055742896371579, nonce 2 gives 13469274641849307401,
    // nonce 3 gives 3391722910504809177.
    let mut t = [0u8; 32];
    t[..8].copy_from_slice(&6_700_055_742_896_371_579u64.to_be_bytes());
    let exact = Target(t);
    assert!(Argon2Cache::prefilter(&bytes, 1, &exact));
    assert!(Argon2Cache::prefilter(&bytes, 3, &exact));
    assert!(!Argon2Cache::prefilter(&bytes, 2, &exact));
    t[..8].copy_from_slice(&6_700_055_742_896_371_578u64.to_be_bytes());
    let below = Target(t);
    assert!(!Argon2Cache::prefilter(&bytes, 1, &below));
    assert!(Argon2Cache::prefilter(&bytes, 3, &below));
    for nonce in 0..4u64 {
        assert!(Argon2Cache::prefilter(&bytes, nonce, &Target([0xFFu8; 32])));
        assert!(!Argon2Cache::prefilter(&bytes, nonce, &Target([0u8; 32])));
    }
    assert!(!Argon2Cache::prefilter(&bytes, 3, &Target::genesis()));
}

#[test]
fn cache_counts_a_miss_then_a_fresh_hit() {
    let mut cache = Argon2Cache::new(4);
    let data = b"some header bytes";
    let first = cache.hash(data, 1_000);
    let (hits, misses, _time, hashes) = cache.stats_counts();
    assert_eq!((hits, misses, hashes), (0, 1, 1));
    let second = cache.hash(data, 1_059);
    assert_eq!(first, second);
    let (hits, misses, _time, hashes) = cache.stats_counts();
    assert_eq!((hits, misses, hashes), (1, 1, 1));
    assert_ne!(&first[..], &data[..first.len().min(data.len())]);
}

#[test]
fn header_hash_is_the_cached_hash_of_its_encoding() {
    let h = sample_header();
    let mut cache = Argon2Cache::new(4);
    let a = h.hash(&mut cache, 5_000);
    let b = cache.hash(&h.to_bytes(), 5_000);
    assert_eq!(a, b);
    assert_eq!(cache.stats_counts().0, 1);
    let c = h.hash_with_nonce(5, &mut cache, 5_001);
    assert_eq!(a, c);
    assert_eq!(h.meets_target(&mut cache, 5_002), Target::genesis().is_met_by(&a));
}
