use fpoc::bond::Bond;
use fpoc::chain::create_genesis_block;
use fpoc::header::Argon2Cache;
use fpoc::slashing::{EquivocationProof, SlashingPool};
use fpoc::tx::{Block, Transaction, TxOut};
use fpoc::wallet::Wallet;

fn hex(b: &[u8]) -> String {
    b.iter().map(|x| format!("{:02x}", x)).collect()
}

fn key_one() -> Wallet {
    let mut k = vec![0u8; 32];
    k[31] = 1;
    Wallet::from_secret_key(&k).unwrap()
}

fn bond_script(id: [u8; 20]) -> Vec<u8> {
    let mut s = vec![0xBA];
    s.extend_from_slice(&id);
    s
}

fn block_with(transactions: Vec<Transaction>, signature: Option<Vec<u8>>, pubkey: Option<Vec<u8>>) -> Block {
    Block { header: create_genesis_block().0, transactions, signature, pubkey }
}

fn claim(miner: [u8; 20]) -> EquivocationProof {
    EquivocationProof {
        miner_id: miner,
        block_height: 7,
        block_hash_1: [1u8; 32],
        block_hash_2: [2u8; 32],
        signature_1: vec![],
        signature_2: vec![],
        timestamp: 0,
        proven: false,
    }
}

#[test]
fn the_miner_of_a_block_comes_from_its_coinbase_bond_first() {
    let cb = Transaction::coinbase(
        vec![TxOut { value: 1, script_pubkey: vec![1] }, TxOut { value: 2, script_pubkey: bond_script([4u8; 20]) }],
        3,
    );
    let w = key_one();
    let b = block_with(vec![cb], None, Some(w.public_key.clone()));
    assert_eq!(EquivocationProof::extract_miner_id_from_block(&b), Ok([4u8; 20]));
}

#[test]
fn the_miner_of_a_block_falls_back_to_its_public_key() {
    let w = key_one();
    let b = block_with(vec![], None, Some(w.public_key.clone()));
    assert_eq!(hex(&EquivocationProof::extract_miner_id_from_block(&b).unwrap()), "751e76e8199196d454941c45d1b3a323f1433bd6");
    let mut uncompressed = vec![0x04u8];
    uncompressed.extend_from_slice(&[
        0x79, 0xbe, 0x66, 0x7e, 0xf9, 0xdc, 0xbb, 0xac, 0x55, 0xa0, 0x62, 0x95, 0xce, 0x87, 0x0b, 0x07, 0x02, 0x9b,
        0xfc, 0xdb, 0x2d, 0xce, 0x28, 0xd9, 0x59, 0xf2, 0x81, 0x5b, 0x16, 0xf8, 0x17, 0x98, 0x48, 0x3a, 0xda, 0x77,
        0x26, 0xa3, 0xc4, 0x65, 0x5d, 0xa4, 0xfb, 0xfc, 0x0e, 0x11, 0x08, 0xa8, 0xfd, 0x17, 0xb4, 0x48, 0xa6, 0x85,
        0x54, 0x19, 0x9c, 0x47, 0xd0, 0x8f, 0xfb, 0x10, 0xd4, 0xb8,
    ]);
    let b2 = block_with(vec![], None, Some(uncompressed));
    assert_eq!(EquivocationProof::extract_miner_id_from_block(&b2), Ok(w.miner_id));
}

#[test]
fn a_block_naming_no_miner_is_an_error() {
    let b = block_with(vec![], None, Some(vec![9u8; 33]));
    assert_eq!(
        EquivocationProof::extract_miner_id_from_block(&b),
        Err("Cannot extract miner_id from block".to_string())
    );
    let none = block_with(vec![], None, None);
    assert!(EquivocationProof::from_blocks(&none, &none, 3, 10).is_err());
}

#[test]
fn lookups_that_fail_stop_the_check() {
    let p = claim([1u8; 20]);
    let mut cache = Argon2Cache::new(2);
    assert_eq!(p.verify(&Err("disk".to_string()), &mut cache, 1), Err("disk".to_string()));
    assert_eq!(p.verify(&Ok(None), &mut cache, 1), Err("Block 1 not found".to_string()));
    assert_eq!(p.block_height_2(), 7);
}

#[test]
fn a_proof_from_blocks_names_the_first_blocks_miner() {
    let w = key_one();
    let b = block_with(vec![], Some(vec![0u8; 64]), Some(w.public_key.clone()));
    let p = EquivocationProof::from_blocks(&b, &b, 7, 99).unwrap();
    assert_eq!(p.miner_id, w.miner_id);
    assert_eq!(p.block_height, 7);
    assert_eq!(p.block_hash_1, p.block_hash_2);
    assert_eq!(p.signature_1, vec![0u8; 64]);
    assert_eq!(p.timestamp, 99);
    assert!(!p.proven);
}

#[test]
fn a_stored_block_and_a_second_signed_hash_prove_equivocation() {
    let w = key_one();
    let mut cache = Argon2Cache::new(4);
    let header = create_genesis_block().0;
    let hash1 = header.hash(&mut cache, 99);
    let stored = block_with(vec![], Some(w.sign_block(&hash1).unwrap()), Some(w.public_key.clone()));
    let hash2 = [2u8; 32];
    let mut p = claim(w.miner_id);
    p.block_hash_1 = hash1;
    p.block_hash_2 = hash2;
    p.signature_1 = w.sign_block(&hash1).unwrap();
    p.signature_2 = w.sign_block(&hash2).unwrap();
    assert_eq!(p.verify(&Ok(Some(stored.clone())), &mut cache, 99), Ok(true));

    let mut forged = claim(w.miner_id);
    forged.block_hash_1 = hash1;
    forged.block_hash_2 = hash2;
    forged.signature_2 = vec![0u8; 64];
    assert_eq!(forged.verify(&Ok(Some(stored.clone())), &mut cache, 99), Ok(false));

    let mut same = claim(w.miner_id);
    same.block_hash_1 = hash1;
    same.block_hash_2 = hash1;
    same.signature_2 = w.sign_block(&hash1).unwrap();
    assert_eq!(same.verify(&Ok(Some(stored.clone())), &mut cache, 99), Ok(false));

    let mut other_miner = claim([9u8; 20]);
    other_miner.block_hash_1 = hash1;
    other_miner.block_hash_2 = hash2;
    other_miner.signature_2 = w.sign_block(&hash2).unwrap();
    assert_eq!(other_miner.verify(&Ok(Some(stored.clone())), &mut cache, 99), Ok(false));

    let not_first = claim(w.miner_id);
    assert_eq!(not_first.verify(&Ok(Some(stored)), &mut cache, 99), Ok(false));
}

#[test]
fn a_slash_burns_the_bond() {
    let p = claim([5u8; 20]);
    let bond = Bond::new(25_000_000, 10, [5u8; 20]);
    assert_eq!(p.slashed_amount(&Ok(Some(bond))), Ok(25_000_000));
    assert_eq!(p.slashed_amount(&Ok(None)), Err("No bond found for miner".to_string()));
    assert_eq!(p.slashed_amount(&Err("db".to_string())), Err("db".to_string()));
    let r = p.slash_record(25_000_000, 40, 1_000, vec![1, 2, 3]);
    assert_eq!((r.miner_id, r.amount, r.height, r.timestamp), ([5u8; 20], 25_000_000, 40, 1_000));
    assert_eq!(r.proof, vec![1, 2, 3]);
}

#[test]
fn a_slashed_miner_is_never_queued_again() {
    let mut pool = SlashingPool::new();
    pool.add_proof(claim([1u8; 20]));
    pool.add_proof(claim([2u8; 20]));
    assert_eq!(pool.pending_proofs().len(), 2);
    assert!(!pool.is_slashed(&[1u8; 20]));
    pool.mark_slashed([1u8; 20]);
    pool.mark_slashed([1u8; 20]);
    assert!(pool.is_slashed(&[1u8; 20]));
    pool.finish_round(12);
    assert!(pool.pending_proofs().is_empty());
    pool.add_proof(claim([1u8; 20]));
    assert!(pool.pending_proofs().is_empty());
    pool.add_proof(claim([2u8; 20]));
    assert_eq!(pool.pending_proofs().len(), 1);
}
