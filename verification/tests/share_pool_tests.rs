use fpoc::header::{Argon2Cache, BlockHeader};
use fpoc::pool::SharePool;
use fpoc::share::{AggregatedShare, Share};
use fpoc::aggregate_pool::AggregatedSharePool;
use fpoc::target::Target;
use fpoc::wallet::Wallet;

fn hex(b: &[u8]) -> String {
    b.iter().map(|x| format!("{:02x}", x)).collect()
}

fn header() -> BlockHeader {
    BlockHeader {
        version: 1,
        prev_hash: [1u8; 32],
        merkle_root: [0u8; 32],
        timestamp: 10_000,
        difficulty: Target::genesis(),
        nonce: 0,
        epoch_index: 1,
    }
}

fn share(miner: u8, nonce: u64) -> Share {
    Share::new([miner; 20], header(), nonce, [0xAA; 32], 10_000)
}

fn key_one() -> Wallet {
    let mut k = vec![0u8; 32];
    k[31] = 1;
    Wallet::from_secret_key(&k).unwrap()
}

#[test]
fn share_hash_covers_miner_header_nonce_and_hash() {
    assert_eq!(hex(&share(5, 0).share_hash()), "6722e536c86d07ba04ad7764a96db89a3c29a9797e35579862212e3f61353c10");
    assert_eq!(hex(&share(5, 1).share_hash()), "5b4bebd807005f11e1bf22d498163929acab9f3283fd351ca862cfab53cf2f1c");
}

#[test]
fn share_checks_come_in_order() {
    let mut cache = Argon2Cache::new(4);
    let target = Target::genesis().share_target();
    let s = share(5, 0);
    assert_eq!(s.validate(&target, &[9u8; 32], 1, 10_000, &mut cache), Err("Stale prev_hash"));
    assert_eq!(s.validate(&target, &[1u8; 32], 2, 10_000, &mut cache), Err("Wrong epoch"));
    assert_eq!(s.validate(&target, &[1u8; 32], 1, 17_201, &mut cache), Err("Share too old"));
    let early = Share::new([5; 20], header(), 0, [0xAA; 32], 17_300);
    assert_eq!(early.validate(&target, &[1u8; 32], 1, 10_000, &mut cache), Err("Share too far in future"));
    // No hash prefix is at or below the zero target's.
    assert_eq!(s.validate(&Target([0u8; 32]), &[1u8; 32], 1, 10_000, &mut cache), Err("Prefilter rejected"));
}

#[test]
fn a_share_with_a_wrong_hash_is_refused() {
    let mut cache = Argon2Cache::new(4);
    let s = share(5, 0);
    let open_prefilter = Target([0xFFu8; 32]);
    assert_eq!(s.validate(&open_prefilter, &[1u8; 32], 1, 10_000, &mut cache), Err("Hash mismatch"));
}

#[test]
fn shares_of_another_epoch_are_refused_by_the_pool() {
    let mut pool = SharePool::new(1, 10_000);
    let mut s = share(5, 0);
    s.header.epoch_index = 2;
    assert_eq!(pool.add_share(s, true), Err("Wrong epoch"));
    assert_eq!(pool.total_shares_count(), 0);
    assert_eq!(pool.total_shares_of(&[5; 20]), 0);
}

#[test]
fn pool_stores_valid_shares_and_counts_invalid_ones() {
    let mut pool = SharePool::new(1, 10_000);
    assert_eq!(pool.current_epoch(), 1);
    assert_eq!(pool.add_share(share(5, 0), true), Ok(true));
    assert_eq!(pool.add_share(share(5, 1), true), Ok(true));
    assert_eq!(pool.add_share(share(6, 2), false), Ok(false));
    assert_eq!(pool.get_shares(&[5; 20]), 2);
    assert_eq!(pool.get_shares(&[6; 20]), 0);
    assert_eq!(pool.invalid_shares_of(&[6; 20]), 1);
    assert_eq!(pool.total_shares_of(&[6; 20]), 1);
    assert_eq!(pool.total_shares_of(&[5; 20]), 2);
    assert_eq!(pool.total_shares_count(), 2);
    assert_eq!(pool.active_miners_count(), 1);
    assert_eq!(pool.miners(), vec![[5u8; 20]]);
    assert_eq!(pool.memory_used(), 2 * std::mem::size_of::<Share>());
}

#[test]
fn a_share_offered_twice_is_ignored_the_second_time() {
    let mut pool = SharePool::new(1, 10_000);
    assert_eq!(pool.add_share(share(5, 0), true), Ok(true));
    assert_eq!(pool.add_share(share(5, 0), true), Ok(false));
    assert_eq!(pool.add_share(share(5, 0), false), Ok(false));
    assert_eq!(pool.get_shares(&[5; 20]), 1);
    assert_eq!(pool.total_shares_of(&[5; 20]), 1);
    assert_eq!(pool.invalid_shares_of(&[5; 20]), 0);
}

#[test]
fn a_full_pool_evicts_the_oldest_share_of_the_fullest_miner() {
    let mut pool = SharePool::new(0, 10_000);
    assert_eq!(pool.add_share(share(5, 0), true), Ok(true));
    assert_eq!(pool.add_share(share(5, 1), true), Ok(true));
    assert_eq!(pool.get_shares(&[5; 20]), 1);
    assert_eq!(pool.memory_used(), std::mem::size_of::<Share>());
    // The evicted share's hash is forgotten, so it is taken again.
    assert_eq!(pool.add_share(share(5, 0), true), Ok(true));
    assert_eq!(pool.get_shares(&[5; 20]), 1);
    assert_eq!(pool.add_share(share(6, 7), true), Ok(true));
    assert_eq!(pool.get_shares(&[5; 20]), 0);
    assert_eq!(pool.get_shares(&[6; 20]), 1);
    assert_eq!(pool.miners(), vec![[5u8; 20], [6u8; 20]]);
    assert_eq!(pool.active_miners_count(), 2);
}

#[test]
fn eviction_takes_from_the_miner_with_most_shares() {
    let mut pool = SharePool::new(1, 10_000);
    for n in 0..3 {
        assert_eq!(pool.add_share(share(5, n), true), Ok(true));
    }
    assert_eq!(pool.add_share(share(6, 10), true), Ok(true));
    pool.evict_oldest();
    assert_eq!(pool.get_shares(&[5; 20]), 2);
    assert_eq!(pool.get_shares(&[6; 20]), 1);
    pool.evict_oldest();
    assert_eq!(pool.get_shares(&[5; 20]), 1);
    assert_eq!(pool.get_shares(&[6; 20]), 1);
    // On a tie the miner seen first loses its oldest share.
    pool.evict_oldest();
    assert_eq!(pool.get_shares(&[5; 20]), 0);
    assert_eq!(pool.get_shares(&[6; 20]), 1);
}

#[test]
fn a_miner_stores_at_most_the_epoch_limit() {
    let mut pool = SharePool::new(1_000, 10_000);
    for n in 0..5_000 {
        assert_eq!(pool.add_share(share(5, n), true), Ok(true));
    }
    assert_eq!(pool.add_share(share(5, 5_000), true), Err("Max shares per miner exceeded"));
    assert_eq!(pool.get_shares(&[5; 20]), 5_000);
    assert_eq!(pool.total_shares_of(&[5; 20]), 5_001);
}

#[test]
fn a_share_over_the_limit_is_refused_before_any_eviction() {
    let size = std::mem::size_of::<Share>();
    let mb = (5_000 * size + 1_048_575) / 1_048_576;
    let capacity = mb * 1_048_576 / size;
    let mut pool = SharePool::new(mb, 10_000);
    for n in 0..5_000 {
        assert_eq!(pool.add_share(share(5, n), true), Ok(true));
    }
    for n in 0..(capacity - 5_000) as u64 {
        assert_eq!(pool.add_share(share(6, n), true), Ok(true));
    }
    let memory = pool.memory_used();
    assert_eq!(memory, capacity * size);
    let root = pool.calculate_merkle_root();
    // The pool is full, and miner 5 already stores the most shares allowed.
    assert_eq!(pool.add_share(share(5, 5_000), true), Err("Max shares per miner exceeded"));
    assert_eq!(pool.get_shares(&[5; 20]), 5_000);
    assert_eq!(pool.get_shares(&[6; 20]), (capacity - 5_000) as u64);
    assert_eq!(pool.memory_used(), memory);
    assert_eq!(pool.calculate_merkle_root(), root);
    assert_eq!(pool.total_shares_of(&[5; 20]), 5_001);
}

#[test]
fn commit_root_is_over_the_sorted_share_hashes() {
    let mut pool = SharePool::new(1, 10_000);
    assert_eq!(pool.calculate_merkle_root(), [0u8; 32]);
    pool.add_share(share(5, 0), true).unwrap();
    assert_eq!(hex(&pool.calculate_merkle_root()), hex(&share(5, 0).share_hash()));
    pool.add_share(share(5, 2), true).unwrap();
    pool.add_share(share(5, 1), true).unwrap();
    assert_eq!(hex(&pool.calculate_merkle_root()), "a2c082739dc729307cabfca03f39fe0117a814bc75f65388d93d26ed7291665c");
    let mut other = SharePool::new(1, 10_000);
    other.add_share(share(5, 1), true).unwrap();
    other.add_share(share(5, 0), true).unwrap();
    other.add_share(share(5, 2), true).unwrap();
    assert_eq!(other.calculate_merkle_root(), pool.calculate_merkle_root());
}

#[test]
fn a_new_epoch_empties_the_pool() {
    let mut pool = SharePool::new(1, 10_000);
    pool.add_share(share(5, 0), true).unwrap();
    pool.new_epoch(20_000);
    assert_eq!(pool.current_epoch(), 2);
    assert_eq!(pool.total_shares_count(), 0);
    assert_eq!(pool.memory_used(), 0);
    assert_eq!(pool.miners(), Vec::<[u8; 20]>::new());
    assert_eq!(pool.add_share(share(5, 0), true), Err("Wrong epoch"));
}

fn key(n: u8) -> Wallet {
    let mut k = vec![0u8; 32];
    k[31] = n;
    Wallet::from_secret_key(&k).unwrap()
}

fn pk(w: &Wallet) -> [u8; 33] {
    w.public_key.clone().try_into().unwrap()
}

fn share_of(w: &Wallet, nonce: u64) -> Share {
    Share::new(w.miner_id, header(), nonce, [0xAA; 32], 10_000)
}

#[test]
fn aggregates_commit_to_their_shares_and_verify() {
    let w = key_one();
    let shares = vec![share_of(&w, 0), share_of(&w, 1)];
    let agg = AggregatedShare::aggregate(&shares, &w, 1, 12_345).unwrap();
    assert_eq!(agg.miner_id, w.miner_id);
    assert_eq!(agg.share_count, 2);
    assert_eq!(agg.merkle_root, AggregatedShare::build_merkle_root(&shares));
    assert_eq!(agg.timestamp, 12_345);
    assert_eq!(agg.epoch, 1);
    assert_eq!(agg.size_bytes(), 20 + 4 + 32 + 64 + 8 + 4);
    assert_eq!(agg.verify(&shares, &pk(&w)), Ok(true));
    assert_eq!(agg.verify(&shares[..1], &pk(&w)), Ok(false));
    assert_eq!(agg.verify(&[share_of(&w, 1), share_of(&w, 0)], &pk(&w)), Ok(false));
    let msg = AggregatedShare::build_message(&agg.miner_id, 2, &agg.merkle_root, 1, 12_345);
    assert_eq!(w.sign(&msg).unwrap(), agg.signature);
}

#[test]
fn aggregates_with_a_forged_signature_or_a_foreign_key_are_refused() {
    let w = key_one();
    let shares = vec![share_of(&w, 0), share_of(&w, 1)];
    let agg = AggregatedShare::aggregate(&shares, &w, 1, 12_345).unwrap();
    let mut forged = agg.clone();
    forged.signature = vec![0u8; 64];
    assert_eq!(forged.verify(&shares, &pk(&w)), Ok(false));
    assert_eq!(agg.verify(&shares, &pk(&key(2))), Ok(false));
    let other = key(2);
    let theirs = vec![share_of(&other, 0)];
    let signed_by_wrong_wallet = AggregatedShare::aggregate(&theirs, &w, 1, 1).unwrap();
    assert_eq!(signed_by_wrong_wallet.verify(&theirs, &pk(&other)), Ok(false));
}

#[test]
fn aggregation_refuses_empty_and_mixed_batches() {
    let w = key_one();
    assert_eq!(AggregatedShare::aggregate(&[], &w, 1, 1).err().unwrap(), "No shares to aggregate");
    let mixed = vec![share(5, 0), share(6, 1)];
    assert_eq!(AggregatedShare::aggregate(&mixed, &w, 1, 1).err().unwrap(), "Shares from different miners");
}

#[test]
fn aggregate_pool_keeps_one_aggregate_per_miner_and_each_root_once() {
    let (wa, wb, wc) = (key(1), key(2), key(3));
    let mut pool = AggregatedSharePool::new(2);
    let a = vec![share_of(&wa, 0), share_of(&wa, 1)];
    let agg_a = AggregatedShare::aggregate(&a, &wa, 1, 1).unwrap();
    assert_eq!(pool.add_aggregate(agg_a.clone(), &a, &pk(&wa)), Ok(true));
    assert_eq!(pool.add_aggregate(agg_a.clone(), &a, &pk(&wa)), Ok(false));
    assert_eq!(pool.get_share_count(&wa.miner_id), 2);
    let b = vec![share_of(&wb, 0)];
    let agg_b = AggregatedShare::aggregate(&b, &wb, 1, 1).unwrap();
    assert_eq!(pool.add_aggregate(agg_b.clone(), &a, &pk(&wb)), Ok(false));
    assert_eq!(pool.add_aggregate(agg_b.clone(), &b, &pk(&wa)), Ok(false));
    assert_eq!(pool.add_aggregate(agg_b, &b, &pk(&wb)), Ok(true));
    assert_eq!(pool.active_miners(), 2);
    assert_eq!(pool.total_shares(), 3);
    let c = vec![share_of(&wc, 0)];
    let agg_c = AggregatedShare::aggregate(&c, &wc, 1, 1).unwrap();
    assert_eq!(pool.add_aggregate(agg_c, &c, &pk(&wc)), Ok(true));
    assert_eq!(pool.active_miners(), 2);
    assert_eq!(pool.get_share_count(&wa.miner_id), 0);
    assert_eq!(pool.get_share_count(&wc.miner_id), 1);
    pool.new_epoch();
    assert_eq!(pool.active_miners(), 0);
    assert_eq!(pool.add_aggregate(agg_a, &a, &pk(&wa)), Ok(true));
}
