use fpoc::ddos::DDoSProtection;
use fpoc::miner::{admits_share, MinerStats};
use fpoc::peer::{on_announced_address, Incoming, PeerState, Received};
use fpoc::bond::{bond_for, deposit_bond, Bond};

fn addr(s: &str) -> String {
    s.to_string()
}

#[test]
fn whitelisted_addresses_are_never_limited() {
    let mut d = DDoSProtection::new(0);
    let a = addr("1.2.3.4:1");
    d.whitelist_ip(&a);
    for _ in 0..200 {
        assert!(d.check_rate_limit(&a, 10));
    }
    assert_eq!(d.global_request_count(), 0);
    d.blacklist_ip(&a);
    assert!(!d.check_rate_limit(&a, 10));
    assert!(d.is_banned(&a));
}

#[test]
fn a_flood_within_a_minute_is_blacklisted() {
    let mut d = DDoSProtection::new(0);
    let a = addr("5.6.7.8:2");
    for _ in 0..100 {
        assert!(d.check_rate_limit(&a, 10));
    }
    assert!(!d.check_rate_limit(&a, 10));
    assert!(d.is_banned(&a));
    assert!(!d.check_rate_limit(&a, 5_000));
    assert_eq!(d.global_request_count(), 101);
    assert!(!d.check_connection_limit(&a, 10));
}

#[test]
fn minute_counts_restart_after_a_minute() {
    let mut d = DDoSProtection::new(0);
    let a = addr("9.9.9.9:3");
    for _ in 0..100 {
        assert!(d.check_rate_limit(&a, 10));
    }
    assert!(d.check_rate_limit(&a, 71));
    assert!(!d.is_banned(&a));
}

#[test]
fn attack_mode_tightens_the_limits() {
    let mut d = DDoSProtection::new(0);
    d.enable_attack_mode();
    let a = addr("1.1.1.1:4");
    for _ in 0..10 {
        assert!(d.check_rate_limit(&a, 10));
    }
    assert!(!d.check_rate_limit(&a, 10));
    let b = addr("2.2.2.2:5");
    for _ in 0..5 {
        assert!(d.check_connection_limit(&b, 10));
    }
    assert!(!d.check_connection_limit(&b, 10));
    d.disable_attack_mode();
    assert!(d.check_connection_limit(&b, 10));
}

#[test]
fn connections_are_limited_per_minute() {
    let mut d = DDoSProtection::new(0);
    let a = addr("3.3.3.3:6");
    for _ in 0..50 {
        assert!(d.check_connection_limit(&a, 100));
    }
    assert!(!d.check_connection_limit(&a, 160));
    assert!(d.check_connection_limit(&a, 161));
}

#[test]
fn repeated_failures_blacklist_an_address() {
    let mut d = DDoSProtection::new(0);
    let a = addr("4.4.4.4:7");
    d.record_failure(&a);
    assert!(!d.is_banned(&a));
    assert!(d.check_connection_limit(&a, 1));
    for _ in 0..10 {
        d.record_failure(&a);
    }
    assert!(!d.is_banned(&a));
    d.record_failure(&a);
    assert!(d.is_banned(&a));
    assert_eq!(d.last_reset(), 0);
}

#[test]
fn peers_are_limited_per_hour_and_banned_at_the_limit() {
    let mut p = PeerState::new(addr("7.7.7.7:8"), 1_000);
    for _ in 0..1_000 {
        assert!(p.check_rate_limit(1_500));
    }
    assert!(!p.check_rate_limit(1_500));
    assert!(p.is_banned());
    assert_eq!(p.ban_reason.as_deref(), Some("Rate limit exceeded"));
    assert!(p.check_rate_limit(4_601));
}

#[test]
fn peer_messages_update_the_state() {
    let mut p = PeerState::new(addr("7.7.7.7:8"), 1_000);
    assert_eq!(p.check_version(), Err("No version received"));
    assert!(matches!(p.receive(&Incoming::Heartbeat(5), 1_010), Received::Accepted { reply_pong: Some(5) }));
    assert_eq!(p.last_heartbeat, 1_010);
    let nonce = p.start_ping();
    assert!(matches!(p.receive(&Incoming::Pong(nonce), 1_020), Received::Accepted { reply_pong: None }));
    assert_eq!(p.ping_time, Some(1_020));
    assert!(matches!(
        p.receive(&Incoming::Version { version: 1, height: 33, best_hash: [4u8; 32] }, 1_030),
        Received::Accepted { reply_pong: None }
    ));
    assert_eq!(p.get_height(), Some(33));
    assert_eq!(p.get_best_hash(), Some([4u8; 32]));
    assert_eq!(p.check_version(), Ok(()));
    assert_eq!(p.messages_received, 3);
    assert_eq!(p.last_message_time, 1_030);
    assert!(!p.is_stale(1_330));
    assert!(p.is_stale(1_331));
    assert!(!p.needs_heartbeat(1_040));
    assert!(p.needs_heartbeat(1_061));
}

#[test]
fn misbehaving_peers_are_banned() {
    let mut p = PeerState::new(addr("7.7.7.7:8"), 1_000);
    assert!(matches!(p.receive(&Incoming::Version { version: 2, height: 1, best_hash: [0u8; 32] }, 1_001), Received::Dropped));
    assert_eq!(p.ban_reason.as_deref(), Some("Incompatible version"));
    let mut q = PeerState::new(addr("7.7.7.8:8"), 1_000);
    assert!(matches!(q.receive(&Incoming::GetBlocks { max_count: 501 }, 1_001), Received::Dropped));
    assert_eq!(q.ban_reason.as_deref(), Some("Requested too many blocks"));
    let mut r = PeerState::new(addr("7.7.7.9:8"), 1_000);
    let id = r.get_peer_id();
    let other = if id == [0u8; 32] { [1u8; 32] } else { [0u8; 32] };
    assert!(matches!(r.receive(&Incoming::BanPeer { peer_id: other, reason: "x".to_string() }, 1_001), Received::Accepted { .. }));
    assert!(!r.is_banned());
    assert!(matches!(r.receive(&Incoming::BanPeer { peer_id: id, reason: "spam".to_string() }, 1_002), Received::Accepted { .. }));
    assert!(r.is_banned());
    assert_eq!(r.ban_reason.as_deref(), Some("spam"));
    assert!(!r.ban("again"));
    let mut s = PeerState::new(addr("7.7.7.10:8"), 1_000);
    assert!(s.on_oversized());
    assert_eq!(s.invalid_messages, 1);
    assert_eq!(s.ban_reason.as_deref(), Some("Message too large"));
}

#[test]
fn sending_counts_only_for_peers_not_banned() {
    let mut p = PeerState::new(addr("7.7.7.7:8"), 1_000);
    p.on_sent(1_100);
    assert_eq!((p.messages_sent, p.last_message_time), (1, 1_100));
    p.on_undecodable();
    assert_eq!(p.invalid_messages, 1);
    p.update_state(9, [1u8; 32], 1_200);
    assert_eq!((p.height, p.last_message_time), (Some(9), 1_200));
    p.ban("done");
    p.on_sent(1_300);
    assert_eq!((p.messages_sent, p.last_message_time), (1, 1_200));
    assert_eq!(p.get_address(), "7.7.7.7:8");
}

#[test]
fn miner_records_count_shares_blocks_and_bans() {
    let mut m = MinerStats::new([1u8; 20], 50, 3, 100);
    assert!(!m.is_banned(100));
    assert!(m.can_add_share());
    m.add_share(120);
    m.add_share(130);
    assert_eq!((m.shares, m.total_shares_historical, m.last_share_time), (2, 2, 130));
    m.add_block(500_000);
    assert_eq!((m.blocks_found, m.total_rewards), (1, 500_000));
    m.ban_for(200, 300);
    assert!(m.is_banned(499));
    assert!(!m.is_banned(500));
    m.reset_epoch_shares();
    assert_eq!((m.shares, m.total_shares_historical), (0, 2));
    m.shares = 5_000;
    assert!(!m.can_add_share());
}

#[test]
fn bonds_lock_for_the_lockup_period() {
    let b = Bond::new(10_000_000, 100, [1u8; 20]);
    assert_eq!(b.lock_until, 100 + 20_160);
    assert!(!b.is_active(20_259));
    assert!(b.is_active(20_260));
    assert_eq!(b.remaining_blocks(20_000), 260);
    assert_eq!(b.remaining_blocks(30_000), 0);
    assert!(b.is_valid_for_poci());
    assert!(!Bond::new(9_999_999, 100, [1u8; 20]).is_valid_for_poci());
}

#[test]
fn bond_outputs_become_bonds() {
    let mut script = vec![0xBA];
    script.extend_from_slice(&[3u8; 20]);
    let out = fpoc::tx::TxOut { value: 10_000_000, script_pubkey: script.clone() };
    let b = Bond::from_output(&out, 5).unwrap();
    assert_eq!((b.amount, b.created_at, b.lock_until, b.miner_id), (10_000_000, 5, 20_165, [3u8; 20]));
    let small = fpoc::tx::TxOut { value: 9_999_999, script_pubkey: script };
    assert!(Bond::from_output(&small, 5).is_none());
}

#[test]
fn shares_need_no_running_ban_and_a_minimum_bond() {
    let bond = Bond::new(10_000_000, 100, [1u8; 20]);
    let mut stats = MinerStats::new([1u8; 20], 10_000_000, 1, 50);
    // A bond still in its lock-up admits shares: locking it is what lets a miner take part.
    assert!(admits_share(Some(stats), Some(bond), 1_000));
    assert!(admits_share(None, Some(bond), 1_000));
    assert!(!admits_share(Some(stats), None, 1_000));
    let small = Bond::new(9_999_999, 100, [1u8; 20]);
    assert!(!admits_share(Some(stats), Some(small), 1_000));
    stats.ban_for(1_000, 300);
    assert!(!admits_share(Some(stats), Some(bond), 1_299));
    assert!(admits_share(Some(stats), Some(bond), 1_300));
}

#[test]
fn stakes_below_the_minimum_make_no_bond() {
    assert!(bond_for(9_999_999, 10, [2u8; 20]).is_none());
    let b = bond_for(10_000_000, 10, [2u8; 20]).unwrap();
    assert_eq!((b.amount, b.created_at, b.lock_until, b.miner_id), (10_000_000, 10, 20_170, [2u8; 20]));
}

#[test]
fn announced_addresses_are_recorded_once_and_joined_while_there_is_room() {
    assert_eq!(on_announced_address(false, false, 0), (true, true));
    assert_eq!(on_announced_address(false, false, 124), (true, true));
    assert_eq!(on_announced_address(false, false, 125), (true, false));
    assert_eq!(on_announced_address(true, false, 0), (false, false));
    assert_eq!(on_announced_address(false, true, 0), (false, false));
}

#[test]
fn bond_deposits_accumulate() {
    assert!(deposit_bond(None, 9_999_999, 10, [2u8; 20]).is_none());
    let first = deposit_bond(None, 10_000_000, 10, [2u8; 20]).unwrap();
    assert_eq!((first.amount, first.created_at, first.lock_until), (10_000_000, 10, 20_170));
    let second = deposit_bond(Some(first), 30_000_000, 50, [2u8; 20]).unwrap();
    assert_eq!((second.amount, second.created_at, second.lock_until), (40_000_000, 10, 20_210));
    assert!(deposit_bond(Some(second), 1, 60, [2u8; 20]).is_none());
}
