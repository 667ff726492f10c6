use fpoc::header::Argon2Cache;
use fpoc::tx::{Transaction, TxIn, TxOut};
use fpoc::wallet::Wallet;

const KEY_ONE_ID: &str = "751e76e8199196d454941c45d1b3a323f1433bd6";
const KEY_ONE_ADDRESS: &str = "1BgGZ9tcN4rm9KBzDn7KprQz87SZ26SAMH";

fn unhex(s: &str) -> Vec<u8> {
    (0..s.len() / 2).map(|i| u8::from_str_radix(&s[2 * i..2 * i + 2], 16).unwrap()).collect()
}

fn hex(b: &[u8]) -> String {
    b.iter().map(|x| format!("{:02x}", x)).collect()
}

fn key_one() -> Wallet {
    let mut k = vec![0u8; 32];
    k[31] = 1;
    Wallet::from_secret_key(&k).unwrap()
}

fn p2pkh(hash: &[u8]) -> Vec<u8> {
    let mut s = vec![0x76, 0xa9, 0x14];
    s.extend_from_slice(hash);
    s.extend_from_slice(&[0x88, 0xac]);
    s
}

fn input(txid: [u8; 32], index: u32) -> TxIn {
    TxIn { prev_txid: txid, prev_index: index, script_sig: Vec::new(), sequence: 0xFFFF_FFFF }
}

fn out(value: u64, script: Vec<u8>) -> TxOut {
    TxOut { value, script_pubkey: script }
}

fn simple_tx() -> Transaction {
    Transaction {
        version: 1,
        inputs: vec![input([3u8; 32], 0)],
        outputs: vec![out(1000, p2pkh(&unhex(KEY_ONE_ID)))],
        locktime: 0,
    }
}

#[test]
fn txid_is_the_double_sha256_of_the_encoding() {
    let mut cache = Argon2Cache::new(1);
    assert_eq!(
        hex(&simple_tx().txid(&mut cache)),
        "a59c4ca2caa7d1c5b8fa3c42ebe453de02f94246d73ce021b27ace449546a98d"
    );
}

#[test]
fn coinbase_carries_the_height_in_its_script() {
    let cb = Transaction::coinbase(vec![out(500_000, p2pkh(&unhex(KEY_ONE_ID)))], 7);
    assert!(cb.is_coinbase());
    assert!(cb.inputs[0].is_coinbase());
    assert_eq!(cb.inputs[0].script_sig, 7u64.to_le_bytes().to_vec());
    let mut cache = Argon2Cache::new(1);
    assert_eq!(
        hex(&cb.txid(&mut cache)),
        "603ad70b98fb107022d15f3f266052f52a7a0034f1639bbaaefe47b43cb405b0"
    );
    assert!(!simple_tx().is_coinbase());
    let plain = TxIn::coinbase();
    assert_eq!(plain.outpoint(), ([0u8; 32], 0xFFFF_FFFF));
}

#[test]
fn empty_transactions_are_refused() {
    let mut tx = simple_tx();
    tx.outputs.clear();
    assert_eq!(tx.validate_basic(), Err("Empty transaction"));
    let mut tx = simple_tx();
    tx.inputs.clear();
    assert_eq!(tx.validate_basic(), Err("Empty transaction"));
}

#[test]
fn spending_one_output_twice_is_refused() {
    let mut tx = simple_tx();
    tx.inputs.push(input([3u8; 32], 0));
    assert_eq!(tx.validate_basic(), Err("Double spend within transaction"));
    let mut tx = simple_tx();
    tx.inputs.push(input([3u8; 32], 1));
    assert_eq!(tx.validate_basic(), Ok(()));
}

#[test]
fn dust_outputs_are_refused() {
    let mut tx = simple_tx();
    tx.outputs.push(out(99, p2pkh(&[0u8; 20])));
    assert_eq!(tx.validate_basic(), Err("Dust output"));
    assert!(out(99, vec![]).is_dust());
    assert!(!out(100, vec![]).is_dust());
}

#[test]
fn outputs_beyond_the_supply_are_refused() {
    let mut tx = simple_tx();
    tx.outputs.push(out(1_500_000_000_000_000, p2pkh(&[0u8; 20])));
    assert_eq!(tx.validate_basic(), Err("Output sum exceeds max supply"));
    let mut tx = simple_tx();
    tx.outputs = vec![out(1_500_000_000_000_000, p2pkh(&[0u8; 20]))];
    assert_eq!(tx.validate_basic(), Ok(()));
}

#[test]
fn bond_outputs_name_a_miner() {
    let mut script = vec![0xBA];
    script.extend_from_slice(&[7u8; 20]);
    let bond = out(10_000_000, script);
    assert!(bond.is_bond());
    assert_eq!(bond.extract_miner_id(), Some([7u8; 20]));
    let plain = out(10, p2pkh(&[7u8; 20]));
    assert!(!plain.is_bond());
    assert_eq!(plain.extract_miner_id(), None);
}

#[test]
fn pay_to_key_hash_outputs_round_trip_through_addresses() {
    let o = TxOut::create_p2pkh(KEY_ONE_ADDRESS).unwrap();
    assert_eq!(o.value, 0);
    assert_eq!(o.script_pubkey, p2pkh(&unhex(KEY_ONE_ID)));
    assert!(o.is_p2pkh());
    assert_eq!(o.extract_address(), Some(KEY_ONE_ADDRESS.to_string()));
    assert_eq!(out(5, vec![1, 2, 3]).extract_address(), None);
}

#[test]
fn malformed_addresses_are_refused() {
    assert!(TxOut::create_p2pkh("0OIl").is_err());
    assert_eq!(TxOut::create_p2pkh("1111").err().unwrap(), "Invalid address length");
}

#[test]
fn signature_scripts_split_into_signature_and_key() {
    let mut i = input([1u8; 32], 0);
    i.script_sig = vec![2, 0xAA, 0xBB, 1, 0xCC];
    let (sig, key) = i.parse_script_sig().unwrap();
    assert_eq!(sig, &[0xAA, 0xBB]);
    assert_eq!(key, &[0xCC]);
    i.script_sig = vec![0, 1, 0xAA, 1, 0xCC];
    let (sig, key) = i.parse_script_sig().unwrap();
    assert_eq!(sig, &[0xAA]);
    assert_eq!(key, &[0xCC]);
    i.script_sig = vec![2, 0xAA];
    assert!(i.parse_script_sig().is_none());
}

#[test]
fn a_signed_input_verifies_against_the_signers_output() {
    let w = key_one();
    let mut tx = simple_tx();
    let utxo = out(5_000, p2pkh(&w.miner_id));
    let unsigned = tx.clone();
    tx.inputs[0].sign(&w, &unsigned, 0).unwrap();
    assert!(tx.inputs[0].verify(&tx, 0, &utxo));
    let other = out(5_000, p2pkh(&[9u8; 20]));
    assert!(!tx.inputs[0].verify(&tx, 0, &other));
    assert_eq!(tx.validate(&vec![Ok(Some(utxo))], &vec![None], 0), Ok(4_000));
}

#[test]
fn validation_reports_each_lookup_failure() {
    let tx = simple_tx();
    assert_eq!(tx.validate(&vec![Err("disk".to_string())], &vec![None], 0), Err("DB error"));
    assert_eq!(tx.validate(&vec![Ok(None)], &vec![None], 0), Err("UTXO not found"));
    let unsigned_spend = out(5_000, p2pkh(&[1u8; 20]));
    assert_eq!(tx.validate(&vec![Ok(Some(unsigned_spend))], &vec![None], 0), Err("Invalid signature"));
}

#[test]
fn validation_checks_balance_and_minimum_fee() {
    let w = key_one();
    let mut tx = simple_tx();
    let unsigned = tx.clone();
    tx.inputs[0].sign(&w, &unsigned, 0).unwrap();
    assert_eq!(tx.validate(&vec![Ok(Some(out(999, p2pkh(&w.miner_id))))], &vec![None], 0), Err("Outputs exceed inputs"));
    assert_eq!(tx.validate(&vec![Ok(Some(out(1_099, p2pkh(&w.miner_id))))], &vec![None], 0), Err("Fee below minimum"));
    assert_eq!(tx.validate(&vec![Ok(Some(out(1_100, p2pkh(&w.miner_id))))], &vec![None], 0), Ok(100));
}

#[test]
fn fee_is_inputs_less_outputs() {
    let tx = simple_tx();
    assert_eq!(tx.fee(&vec![Ok(Some(out(1_500, vec![])))]), Ok(500));
    assert_eq!(tx.fee(&vec![Ok(Some(out(900, vec![])))]).err().unwrap(), "Insufficient input sum");
    assert_eq!(tx.fee(&vec![Ok(None)]).err().unwrap(), "UTXO not found");
    assert_eq!(tx.fee(&vec![Err("disk".to_string())]).err().unwrap(), "disk");
    let cb = Transaction::coinbase(vec![out(1, vec![])], 1);
    assert_eq!(cb.fee(&vec![Ok(None)]), Ok(0));
}

#[test]
fn a_created_single_input_payment_validates() {
    let w = key_one();
    let utxo = out(10_000, p2pkh(&w.miner_id));
    let tx = Transaction::create_p2pkh(&w, KEY_ONE_ADDRESS, 6_000, 100, vec![(([4u8; 32], 1), utxo.clone())]).unwrap();
    assert_eq!(tx.inputs.len(), 1);
    assert_eq!(tx.outputs.len(), 2);
    assert_eq!(tx.outputs[0].value, 6_000);
    assert_eq!(tx.outputs[1].value, 3_900);
    assert_eq!(tx.validate(&vec![Ok(Some(utxo))], &vec![None], 0), Ok(100));
}

#[test]
fn every_input_of_a_created_payment_verifies() {
    let w = key_one();
    let utxo = out(1_000, p2pkh(&w.miner_id));
    let utxos = vec![(([1u8; 32], 0), utxo.clone()), (([2u8; 32], 0), utxo.clone())];
    let tx = Transaction::create_p2pkh(&w, KEY_ONE_ADDRESS, 1_500, 100, utxos).unwrap();
    assert_eq!(tx.inputs.len(), 2);
    assert!(tx.inputs[0].verify(&tx, 0, &utxo));
    assert!(tx.inputs[1].verify(&tx, 1, &utxo));
    // Every input signs one digest, whatever the scripts hold.
    assert_eq!(tx.sighash(0), tx.sighash(1));
    assert_eq!(tx.validate(&vec![Ok(Some(utxo.clone())), Ok(Some(utxo))], &vec![None, None], 0), Ok(100));
}

#[test]
fn payments_beyond_the_funds_are_refused() {
    let w = key_one();
    let utxo = out(1_000, p2pkh(&w.miner_id));
    let err = Transaction::create_p2pkh(&w, KEY_ONE_ADDRESS, 6_000, 100, vec![(([4u8; 32], 1), utxo)]).err().unwrap();
    assert_eq!(err, "Insufficient funds");
}

#[test]
fn bond_outputs_are_spent_only_after_their_lockup() {
    let w = key_one();
    let mut tx = simple_tx();
    let mut script = vec![0xBA];
    script.extend_from_slice(&w.miner_id);
    let bond = out(5_000, script);
    let unsigned = tx.clone();
    tx.inputs[0].sign(&w, &unsigned, 0).unwrap();
    assert!(tx.inputs[0].verify(&tx, 0, &bond));
    let lookups = vec![Ok(Some(bond))];
    assert_eq!(tx.validate(&lookups, &vec![None], 1_000_000), Err("Bond is still locked"));
    assert_eq!(tx.validate(&lookups, &vec![Some(20_260)], 20_259), Err("Bond is still locked"));
    assert_eq!(tx.validate(&lookups, &vec![Some(20_260)], 20_260), Ok(4_000));
}
