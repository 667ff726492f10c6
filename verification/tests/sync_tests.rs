use fpoc::header::{Argon2Cache, BlockHeader};
use fpoc::sync::{SyncManager, SyncPeer, SyncStatus};
use fpoc::target::Target;
use fpoc::tx::{Block, Transaction, TxIn, TxOut};

fn hex(b: &[u8]) -> String {
    b.iter().map(|x| format!("{:02x}", x)).collect()
}

fn unhex(s: &str) -> Vec<u8> {
    (0..s.len() / 2).map(|i| u8::from_str_radix(&s[2 * i..2 * i + 2], 16).unwrap()).collect()
}

fn p2pkh(hash: &[u8]) -> Vec<u8> {
    let mut s = vec![0x76, 0xa9, 0x14];
    s.extend_from_slice(hash);
    s.extend_from_slice(&[0x88, 0xac]);
    s
}

fn three_peers() -> SyncManager {
    let mut m = SyncManager::new();
    m.update_peer([1u8; 32], "10.0.0.1:30333".to_string(), 10, [0u8; 32], 100, 500);
    m.update_peer([2u8; 32], "10.0.0.2:30333".to_string(), 20, [0u8; 32], 10, 500);
    m.update_peer([3u8; 32], "10.0.0.3:30333".to_string(), 5, [0u8; 32], 1, 500);
    m
}

fn peer(id: u8, height: u64) -> SyncPeer {
    SyncPeer {
        peer_id: [id; 32],
        address: format!("10.0.0.{}:30333", id),
        height,
        best_hash: [0u8; 32],
        latency_ms: 5,
        last_sync_time: 0,
        retries: 0,
        banned: false,
    }
}

fn easy_block(prev: [u8; 32], timestamp: u64) -> Block {
    Block {
        header: BlockHeader {
            version: 1,
            prev_hash: prev,
            merkle_root: [0u8; 32],
            timestamp,
            difficulty: Target([0xFFu8; 32]),
            nonce: 0,
            epoch_index: 1,
        },
        transactions: vec![],
        signature: None,
        pubkey: None,
    }
}

#[test]
fn a_new_manager_has_nothing_to_sync() {
    let m = SyncManager::new();
    assert_eq!(m.current_height(), 0);
    assert!(!m.is_syncing());
    assert_eq!(m.best_peer_height(), None);
    assert!(!m.needs_sync(100));
    assert!(m.best_peer().is_none());
    assert!(m.select_best_peer().is_none());
}

#[test]
fn peers_are_ranked_by_lead_over_latency() {
    let m = three_peers();
    assert_eq!(m.best_peer_height(), Some(20));
    let best = m.best_peer().unwrap();
    assert_eq!(best.peer_id, [3u8; 32]);
    assert_eq!(best.address, "10.0.0.3:30333");
    assert_eq!(m.select_best_peer(), Some(([3u8; 32], 5, 1)));
    assert!(m.needs_sync(500));
}

#[test]
fn news_of_a_known_peer_updates_it_in_place() {
    let mut m = three_peers();
    m.update_peer([3u8; 32], "elsewhere".to_string(), 50, [9u8; 32], 1, 600);
    assert_eq!(m.best_peer_height(), Some(50));
    let best = m.best_peer().unwrap();
    assert_eq!(best.height, 50);
    assert_eq!(best.address, "10.0.0.3:30333");
    assert_eq!(best.last_sync_time, 600);
    m.remove_peer(&[3u8; 32]);
    assert_eq!(m.best_peer_height(), Some(20));
    assert_eq!(m.select_best_peer(), Some(([2u8; 32], 20, 10)));
}

#[test]
fn a_session_starts_once_and_blocks_complete_it() {
    let mut m = SyncManager::new();
    assert!(!m.start_sync(peer(4, 0), 1_000));
    assert!(m.start_sync(peer(4, 3), 1_000));
    assert!(m.is_syncing());
    assert!(!m.start_sync(peer(5, 9), 1_000));
    match m.active_session() {
        Some(s) => {
            assert_eq!(s.peer_id, [4u8; 32]);
            assert_eq!((s.from_height, s.target_height, s.current_height), (0, 3, 0));
            assert!(matches!(s.status, SyncStatus::Requesting));
        },
        None => panic!("no session"),
    }
    assert_eq!(m.on_blocks_received(&[], &[5u8; 32], 1_010), Err("Wrong peer".to_string()));
    // With no local chain there is no block to build on: the batch is refused.
    assert_eq!(
        m.on_blocks_received(&[easy_block([0u8; 32], 900)], &[4u8; 32], 1_020),
        Err("Invalid block in batch".to_string())
    );
    assert_eq!(m.current_height(), 0);
    assert!(m.is_syncing());
    assert_eq!(m.on_blocks_received(&[], &[4u8; 32], 1_030), Ok(0));
    assert!(!m.is_syncing());
    assert!(matches!(m.active_session().as_ref().unwrap().status, SyncStatus::Completed));
}

#[test]
fn blocks_without_a_session_are_refused() {
    let mut m = SyncManager::new();
    assert_eq!(m.on_blocks_received(&[], &[4u8; 32], 1), Err("No active sync session".to_string()));
}

#[test]
fn silent_peers_time_out_and_are_banned_after_three_tries() {
    let mut m = three_peers();
    for round in 0..3u64 {
        let t = 1_000 * (round + 1);
        assert!(m.start_sync(peer(2, 20), t));
        assert_eq!(m.check_timeouts(t + 60), None);
        assert_eq!(m.check_timeouts(t + 61), Some([2u8; 32]));
        assert!(!m.is_syncing());
    }
    assert_eq!(m.best_peer_height(), Some(10));
    assert_eq!(m.request_blocks(&[2u8; 32], 0, 10), Err("Peer is banned".to_string()));
    assert!(matches!(m.active_session().as_ref().unwrap().status, SyncStatus::Failed(_)));
}

#[test]
fn block_requests_are_capped() {
    let m = three_peers();
    assert_eq!(m.request_blocks(&[1u8; 32], 10, 15), Ok(5));
    assert_eq!(m.request_blocks(&[1u8; 32], 0, 10_000), Ok(500));
    assert_eq!(m.request_blocks(&[7u8; 32], 0, 1), Err("Peer not found".to_string()));
}

#[test]
fn active_sync_picks_the_fastest_peer_ahead() {
    let mut m = three_peers();
    assert_eq!(m.start_active_sync(2_000), Ok(true));
    match m.active_session() {
        Some(s) => {
            assert_eq!(s.peer_id, [3u8; 32]);
            assert_eq!((s.from_height, s.target_height, s.current_height), (1, 5, 0));
            assert_eq!((s.started_at, s.last_activity), (2_000, 2_000));
        },
        None => panic!("no session"),
    }
    assert_eq!(m.start_active_sync(2_001), Ok(false));
    let mut empty = SyncManager::new();
    assert_eq!(empty.start_active_sync(1), Ok(false));
}

#[test]
fn transaction_merkle_root_pairs_txids() {
    let mut cache = Argon2Cache::new(1);
    assert_eq!(SyncManager::compute_merkle_root(&[], &mut cache), [0u8; 32]);
    let id = unhex("751e76e8199196d454941c45d1b3a323f1433bd6");
    let t1 = Transaction {
        version: 1,
        inputs: vec![TxIn { prev_txid: [3u8; 32], prev_index: 0, script_sig: vec![], sequence: 0xFFFF_FFFF }],
        outputs: vec![TxOut { value: 1000, script_pubkey: p2pkh(&id) }],
        locktime: 0,
    };
    let t2 = Transaction::coinbase(vec![TxOut { value: 500_000, script_pubkey: p2pkh(&id) }], 7);
    let root2 = SyncManager::compute_merkle_root(&[t1.clone(), t2.clone()], &mut cache);
    assert_eq!(hex(&root2), "70af8a4abfd5b2351517aa705af168d9d5fd5f849684358d2c45e147d2377e7d");
    let root3 = SyncManager::compute_merkle_root(&[t1.clone(), t2, t1], &mut cache);
    assert_eq!(hex(&root3), "420f25de0431bd46176e0f768fbb956af14779316308cf97ab0417bc121c6f60");
}

#[test]
fn downloaded_blocks_need_the_block_below() {
    let mut cache = Argon2Cache::new(4);
    let b = easy_block([1u8; 32], 900);
    assert_eq!(SyncManager::check_block(&b, 1, &vec![], &mut cache, 1_000), Err("Previous block not found".to_string()));
}

#[test]
fn downloaded_blocks_must_build_on_the_block_below() {
    let mut cache = Argon2Cache::new(4);
    let genesis = easy_block([0u8; 32], 800);
    let b = easy_block([0u8; 32], 900);
    assert_eq!(
        SyncManager::check_block(&b, 1, &vec![genesis.header], &mut cache, 1_000),
        Err("Invalid prev_hash at height 1".to_string())
    );
}

#[test]
fn downloaded_blocks_must_name_the_network_target() {
    let mut cache = Argon2Cache::new(4);
    let mut genesis = easy_block([0u8; 32], 800);
    genesis.header.difficulty = Target::genesis();
    let below = genesis.header.hash(&mut cache, 1_000);
    // A block that claims an easier target than the network's is refused.
    let b = easy_block(below, 900);
    assert_eq!(
        SyncManager::check_block(&b, 1, &vec![genesis.header], &mut cache, 1_000),
        Err("Wrong difficulty at height 1".to_string())
    );
}

#[test]
fn an_accepted_block_extends_the_chain() {
    let mut cache = Argon2Cache::new(4);
    let b = easy_block([0u8; 32], 900);
    let hash = b.header.hash(&mut cache, 1_000);
    let mut m = SyncManager::new();
    m.accept_block(b.header, hash, 1);
    assert_eq!(m.current_height(), 1);
}

#[test]
fn a_batch_with_an_invalid_block_is_refused_whole() {
    let mut m = SyncManager::new();
    let genesis = easy_block([0u8; 32], 800);
    m.set_chain(vec![genesis.header], vec![([7u8; 32], 0)]);
    assert!(m.start_sync(peer(4, 3), 1_000));
    // The block does not name the hash of the local tip.
    let bad = easy_block([0u8; 32], 900);
    assert_eq!(m.on_blocks_received(&[bad], &[4u8; 32], 1_020), Err("Invalid block in batch".to_string()));
    assert_eq!(m.current_height(), 1);
    assert!(m.is_syncing());
}
