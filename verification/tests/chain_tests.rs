use fpoc::chain::{
    adjustment_span, block_fill, build_genesis, check_genesis, checkpoint_message, create_genesis_block,
    chain_median, fee_order, keep_checkpoint, next_target, mined_outcome, plan_next_block, last_difficulty, median_timestamp, mining_due, reward_outputs,
    search_nonce, state_root, utxo_updates, Checkpoint, GenesisCheck, MinedOutcome, UtxoOp,
};
use fpoc::header::{Argon2Cache, BlockHeader};
use fpoc::target::Target;
use fpoc::tx::{Block, Transaction, TxIn, TxOut};
use fpoc::wallet::Wallet;

const KEY_ONE_ADDRESS: &str = "1BgGZ9tcN4rm9KBzDn7KprQz87SZ26SAMH";
const KEY_ONE_ID: &str = "751e76e8199196d454941c45d1b3a323f1433bd6";

fn hex(b: &[u8]) -> String {
    b.iter().map(|x| format!("{:02x}", x)).collect()
}

fn unhex(s: &str) -> Vec<u8> {
    (0..s.len() / 2).map(|i| u8::from_str_radix(&s[2 * i..2 * i + 2], 16).unwrap()).collect()
}

fn key_one() -> Wallet {
    let mut k = vec![0u8; 32];
    k[31] = 1;
    Wallet::from_secret_key(&k).unwrap()
}

fn p2pkh(hash: &[u8]) -> Vec<u8> {
    let mut s = vec![0x76, 0xa9, 0x14];
    s.extend_from_slice(hash);
    s.extend_from_slice(&[0x88, 0xac]);
    s
}

#[test]
fn genesis_block_is_fixed() {
    let (h, cb) = create_genesis_block();
    assert_eq!(h.version, 1);
    assert_eq!(h.prev_hash, [0u8; 32]);
    assert_eq!(h.merkle_root, [0u8; 32]);
    assert_eq!(h.timestamp, 1_741_353_600);
    assert_eq!(h.difficulty.0, Target::genesis().0);
    assert_eq!(h.nonce, 0);
    assert_eq!(h.epoch_index, 1);
    assert!(cb.is_coinbase());
    assert_eq!(cb.outputs.len(), 1);
    assert_eq!(cb.outputs[0].value, 500_000_000);
    assert_eq!(hex(&cb.outputs[0].script_pubkey), "76a91462e907b15cbf27d5425399ebf6f0fb50ebb88f1888ac");
    let mut cache = Argon2Cache::new(1);
    assert_eq!(hex(&cb.txid(&mut cache)), "7b8decc1ba8bfb9bfa79771fd8d4b705283fde90f3cacdfe025ab1a30b6afc6b");
}

#[test]
fn genesis_written_by_a_wallet_is_signed() {
    let w = key_one();
    let mut cache = Argon2Cache::new(4);
    let (block, hash, txid) = build_genesis(Some(&w), &mut cache, 1_000);
    assert_eq!(hex(&txid), "7b8decc1ba8bfb9bfa79771fd8d4b705283fde90f3cacdfe025ab1a30b6afc6b");
    assert_eq!(block.header.merkle_root, txid);
    assert_eq!(block.transactions.len(), 1);
    assert_eq!(block.pubkey, Some(w.public_key.clone()));
    assert_eq!(block.signature, Some(w.sign_block(&hash).unwrap()));
    assert_eq!(block.header.hash(&mut cache, 1_000), hash);
}

#[test]
fn genesis_check_reports_what_is_missing() {
    let w = key_one();
    let block = Block {
        header: create_genesis_block().0,
        transactions: vec![],
        signature: Some(vec![1u8; 64]),
        pubkey: Some(w.public_key.clone()),
    };
    let mut unsigned = block.clone();
    unsigned.signature = None;
    assert!(matches!(check_genesis(&Ok(Some(unsigned)), 1_000), GenesisCheck::NoSignature));
    let mut keyless = block.clone();
    keyless.pubkey = None;
    assert!(matches!(check_genesis(&Ok(Some(keyless)), 1_000), GenesisCheck::NoPublicKey));
    assert!(matches!(check_genesis(&Ok(None), 1_000), GenesisCheck::Missing));
    assert!(matches!(check_genesis(&Err("io".to_string()), 1_000), GenesisCheck::Missing));
}

#[test]
fn a_forged_genesis_signature_is_invalid() {
    let w = key_one();
    let block = Block {
        header: create_genesis_block().0,
        transactions: vec![],
        signature: Some(vec![1u8; 64]),
        pubkey: Some(w.public_key.clone()),
    };
    assert!(matches!(check_genesis(&Ok(Some(block)), 1_000), GenesisCheck::Invalid));
}

#[test]
fn genesis_without_a_wallet_is_unsigned() {
    let mut cache = Argon2Cache::new(4);
    let (block, _hash, _txid) = build_genesis(None, &mut cache, 1_000);
    assert!(block.signature.is_none());
    assert!(block.pubkey.is_none());
}

#[test]
fn adjustment_needs_121_timestamps() {
    let ts: Vec<u64> = (0..120).map(|i| 1_000 + 60 * i).collect();
    assert_eq!(adjustment_span(&ts), None);
    let ts: Vec<u64> = (0..121).map(|i| 1_000 + 60 * i).collect();
    assert_eq!(adjustment_span(&ts), Some(7_200));
    let mut ts: Vec<u64> = (0..130).map(|i| 1_000 + 30 * i).collect();
    ts.push(10_000);
    assert_eq!(adjustment_span(&ts), Some(10_000 - (1_000 + 30 * 10)));
}

#[test]
fn median_of_the_last_eleven_timestamps() {
    assert_eq!(median_timestamp(&vec![1, 2, 3]), None);
    let ts = vec![5, 1, 9, 3, 7, 11, 2, 8, 4, 10, 6];
    assert_eq!(median_timestamp(&ts), Some(6));
    let mut ts2 = vec![1_000, 2_000];
    ts2.extend_from_slice(&[20, 20, 20, 1, 1, 1, 30, 30, 30, 30, 5]);
    assert_eq!(median_timestamp(&ts2), Some(20));
}

#[test]
fn last_difficulty_falls_back_to_genesis() {
    assert_eq!(last_difficulty(&vec![]).0, Target::genesis().0);
    let h = BlockHeader::new([0u8; 32], 1, Target([7u8; 32]), 5);
    assert_eq!(last_difficulty(&vec![h]).0, [7u8; 32]);
}

#[test]
fn mining_waits_for_the_block_time_and_ten_shares() {
    assert!(mining_due(None, 100, 10));
    assert!(!mining_due(None, 100, 9));
    assert!(!mining_due(Some(50), 109, 20));
    assert!(mining_due(Some(50), 110, 20));
}

#[test]
fn rewards_pay_each_miner_then_the_block_reward() {
    let a = [1u8; 20];
    let b = [2u8; 20];
    let c = [3u8; 20];
    let outs = reward_outputs(&[(a, 5), (b, 0), (c, 7)], Some(KEY_ONE_ADDRESS));
    let values: Vec<u64> = outs.iter().map(|o| o.value).collect();
    assert_eq!(values, vec![5, 7, 500_000]);
    assert_eq!(outs[0].script_pubkey, p2pkh(&a));
    assert_eq!(outs[1].script_pubkey, p2pkh(&c));
    assert_eq!(outs[2].script_pubkey, p2pkh(&unhex(KEY_ONE_ID)));
    let no_address = reward_outputs(&[(a, 5), (c, 7)], None);
    assert_eq!(no_address.len(), 2);
    assert_eq!(no_address[1].script_pubkey, p2pkh(&c));
    assert_eq!(reward_outputs(&[(a, 5), (c, 7)], Some("1111")).len(), 2);
    assert!(reward_outputs(&[], None).is_empty());
}

#[test]
fn blocks_take_transactions_while_they_fit() {
    assert_eq!(block_fill(100, &[300_000, 300_000, 300_000, 200_000]), 3);
    assert_eq!(block_fill(100, &[999_900]), 1);
    assert_eq!(block_fill(100, &[999_901, 1]), 0);
    assert_eq!(block_fill(0, &[]), 0);
}

#[test]
fn mempool_order_is_by_fee_then_arrival() {
    assert_eq!(fee_order(&[50, 200, 50, 100, 200]), vec![1, 4, 3, 0, 2]);
    assert_eq!(fee_order(&[]), Vec::<usize>::new());
}

#[test]
fn state_root_orders_entries_and_ignores_the_order_given() {
    let a = ([2u8; 20], 1, 2);
    let b = ([1u8; 20], 3, 4);
    let c = ([9u8; 20], 100, 6);
    let d = ([9u8; 20], 100, 5);
    let root = state_root(&[a, b], &[c, d]);
    // Miners by identity, then bonds by identity and counters.
    assert_eq!(hex(&root), "f9a6b230cd4a7d33633f75737d98e7e336f3abed7dcf86262ee7f6b14c7386c5");
    assert_eq!(state_root(&[b, a], &[d, c]), root);
    assert_eq!(state_root(&[b, a], &[c, d]), root);
}

#[test]
fn state_root_hashes_miners_then_bonds() {
    let root = state_root(&[([1u8; 20], 5, 7)], &[([2u8; 20], 100, 200)]);
    assert_eq!(hex(&root), "4044aed836a2a2fc9a01d0a83e08d07741386d31dfeb2a1e51e9ebd178185e12");
    assert_eq!(hex(&state_root(&[], &[])), "e3b0c44298fc1c149afbf4c8996fb92427ae41e4649b934ca495991b7852b855");
}

#[test]
fn checkpoints_sign_height_hash_and_root() {
    let m = checkpoint_message(9, &[3u8; 32], &[4u8; 32]);
    assert_eq!(hex(&m), "095d570533a4339a9725e56e55b246228c6e84addd0b74b90f8cf7c977009a5a");
    let w = key_one();
    let cp = Checkpoint::create(9, [3u8; 32], [4u8; 32], Some(&w), 77);
    assert_eq!(cp.signature, w.sign(&m).unwrap());
    assert_eq!(cp.timestamp, 77);
    assert!(!cp.verified);
    let plain = Checkpoint::create(9, [3u8; 32], [4u8; 32], None, 77);
    assert!(plain.signature.is_empty());
    let mut list = Vec::new();
    for h in 0..4u64 {
        keep_checkpoint(&mut list, Checkpoint::create(h, [0u8; 32], [0u8; 32], None, h), 3);
    }
    let heights: Vec<u64> = list.iter().map(|c| c.height).collect();
    assert_eq!(heights, vec![1, 2, 3]);
}

#[test]
fn a_block_saves_outputs_and_deletes_spent_outpoints_in_order() {
    let w = key_one();
    let cb = Transaction::coinbase(vec![TxOut { value: 500_000, script_pubkey: p2pkh(&w.miner_id) }, TxOut { value: 7, script_pubkey: vec![] }], 1);
    let spend = Transaction {
        version: 1,
        inputs: vec![TxIn { prev_txid: [8u8; 32], prev_index: 3, script_sig: vec![], sequence: 0 }],
        outputs: vec![TxOut { value: 9, script_pubkey: vec![1] }],
        locktime: 0,
    };
    let block = Block { header: create_genesis_block().0, transactions: vec![cb, spend], signature: None, pubkey: None };
    let mut cache = Argon2Cache::new(1);
    let ops = utxo_updates(&block, &mut cache);
    assert_eq!(ops.len(), 4);
    match &ops[0] {
        UtxoOp::Save(id, i, out) => {
            assert_eq!(hex(id), "4a2ff7e58b4619478b71b64961074381fa9376ed6413ac8644ae3b7976e49263");
            assert_eq!(*i, 0);
            assert_eq!(out.value, 500_000);
        },
        _ => panic!("expected a save"),
    }
    match &ops[1] {
        UtxoOp::Save(_, i, out) => {
            assert_eq!(*i, 1);
            assert_eq!(out.value, 7);
        },
        _ => panic!("expected a save"),
    }
    assert!(matches!(&ops[2], UtxoOp::Save(_, 0, _)));
    match &ops[3] {
        UtxoOp::Delete(id, i) => {
            assert_eq!(*id, [8u8; 32]);
            assert_eq!(*i, 3);
        },
        _ => panic!("expected a delete"),
    }
}

#[test]
fn nonce_search_under_a_zero_prefilter_finds_nothing() {
    let h = BlockHeader::new([0u8; 32], 1, Target([0u8; 32]), 1_000);
    let mut cache = Argon2Cache::new(4);
    let (nonce, hash, found) = search_nonce(&h, &mut cache, 1_000);
    // The zero target's prefilter passes no nonce below the batch size here.
    assert!(!found);
    assert_eq!(nonce, 0);
    assert_eq!(hash, [0xFFu8; 32]);
    assert_eq!(cache.stats_counts().1, 0);
}

#[test]
fn backups_are_due_at_positive_multiples_and_pruned_to_a_count() {
    assert!(!fpoc::chain::backup_due(0, 100));
    assert!(fpoc::chain::backup_due(200, 100));
    assert!(!fpoc::chain::backup_due(250, 100));
    assert_eq!(fpoc::chain::backups_to_remove(12, 10), 2);
    assert_eq!(fpoc::chain::backups_to_remove(3, 10), 0);
}

#[test]
fn a_search_yields_a_block_only_when_the_difficulty_is_met() {
    assert!(matches!(mined_outcome(true, &[0x00; 32]), MinedOutcome::Block));
    assert!(matches!(mined_outcome(true, &[0xFF; 32]), MinedOutcome::Block));
    let mut h = [0xFF; 32];
    assert!(matches!(mined_outcome(false, &h), MinedOutcome::Nothing));
    h[31] = 0xFE;
    assert!(matches!(mined_outcome(false, &h), MinedOutcome::Share));
    assert!(matches!(mined_outcome(false, &[0x00; 32]), MinedOutcome::Share));
}

#[test]
fn the_next_block_names_the_current_epoch_and_its_triggers() {
    let p = plan_next_block(1_438, 1, 1_000);
    assert_eq!((p.height, p.header_epoch, p.ends_epoch, p.checkpoint_due), (1_439, 1, false, false));
    let p = plan_next_block(1_439, 1, 1_000);
    assert_eq!((p.height, p.header_epoch, p.ends_epoch, p.checkpoint_due), (1_440, 1, true, false));
    let p = plan_next_block(999, 3, 1_000);
    assert_eq!((p.height, p.header_epoch, p.ends_epoch, p.checkpoint_due), (1_000, 3, false, true));
}

fn headers_with_spacing(n: usize, spacing: u64, difficulty: Target) -> Vec<BlockHeader> {
    (0..n).map(|i| BlockHeader::new([0u8; 32], 1, difficulty, 1_000 + spacing * i as u64)).collect()
}

fn target_with_value(v: u128) -> Target {
    let mut t = [0u8; 32];
    t[16..].copy_from_slice(&v.to_be_bytes());
    Target(t)
}

#[test]
fn the_network_target_starts_at_genesis_and_follows_the_last_block() {
    assert_eq!(next_target(&vec![]).0, Target::genesis().0);
    let t = target_with_value(1_000_000);
    assert_eq!(next_target(&headers_with_spacing(5, 60, t)).0, t.0);
    // Height 120 has only 120 timestamps before it: no adjustment yet.
    assert_eq!(next_target(&headers_with_spacing(120, 60, t)).0, t.0);
    // Height 241 is not a multiple of the interval.
    assert_eq!(next_target(&headers_with_spacing(241, 60, t)).0, t.0);
}

#[test]
fn the_network_target_is_adjusted_every_interval() {
    let t = target_with_value(1_000_000);
    // 120 blocks in 120 * 60 = 7200 s: factor 1.
    assert_eq!(next_target(&headers_with_spacing(240, 60, t)).0, t.0);
    // 120 blocks in 120 * 50 = 6000 s: factor 0.833333.
    assert_eq!(next_target(&headers_with_spacing(240, 50, t)).0, target_with_value(833_333).0);
    // 120 blocks in 120 * 10 s: clamped to 0.75.
    assert_eq!(next_target(&headers_with_spacing(360, 10, t)).0, target_with_value(750_000).0);
    // 120 blocks in 120 * 600 s: clamped to 1.25.
    assert_eq!(next_target(&headers_with_spacing(240, 600, t)).0, target_with_value(1_250_000).0);
}

#[test]
fn the_median_of_a_chain_is_that_of_its_timestamps() {
    assert_eq!(chain_median(&headers_with_spacing(10, 60, Target::genesis())), None);
    assert_eq!(chain_median(&headers_with_spacing(20, 60, Target::genesis())), Some(1_000 + 60 * 14));
}
