use fpoc::wallet::Wallet;
use sha2::{Digest, Sha256};

fn key_one() -> Vec<u8> {
    let mut k = vec![0u8; 32];
    k[31] = 1;
    k
}

fn hex(b: &[u8]) -> String {
    b.iter().map(|x| format!("{:02x}", x)).collect()
}

#[test]
fn wallet_of_secret_one_has_known_key_identity_and_address() {
    let w = Wallet::from_secret_key(&key_one()).unwrap();
    assert_eq!(hex(&w.public_key), "0279be667ef9dcbbac55a06295ce870b07029bfcdb2dce28d959f2815b16f81798");
    assert_eq!(hex(&w.miner_id), "751e76e8199196d454941c45d1b3a323f1433bd6");
    assert_eq!(w.address, "1BgGZ9tcN4rm9KBzDn7KprQz87SZ26SAMH");
    assert_eq!(w.public_key_bytes(), &w.public_key[..]);
}

#[test]
fn identity_and_address_are_derived_from_the_key() {
    let w = Wallet::from_secret_key(&key_one()).unwrap();
    let mut pk = [0u8; 33];
    pk.copy_from_slice(&w.public_key);
    assert_eq!(Wallet::miner_id_from_pubkey(&pk), w.miner_id);
    assert_eq!(Wallet::address_from_miner_id(&w.miner_id), w.address);
}

#[test]
fn secret_key_of_wrong_length_is_refused() {
    let err = Wallet::from_secret_key(&[1u8; 31]).err().unwrap();
    assert_eq!(err, "Invalid secret key length");
}

#[test]
fn zero_secret_key_is_refused() {
    let err = Wallet::from_secret_key(&[0u8; 32]).err().unwrap();
    assert_eq!(err, "Invalid secret key");
}

#[test]
fn generated_wallets_are_consistent() {
    let w = Wallet::generate().unwrap();
    assert_eq!(w.secret_key.len(), 32);
    assert_eq!(w.public_key.len(), 33);
    let again = Wallet::from_secret_key(&w.secret_key).unwrap();
    assert_eq!(again.public_key, w.public_key);
    assert_eq!(again.address, w.address);
}

#[test]
fn signature_verifies_only_for_the_signed_message() {
    let w = Wallet::from_secret_key(&key_one()).unwrap();
    let digest = [7u8; 32];
    let sig = w.sign(&digest).unwrap();
    assert_eq!(sig.len(), 64);
    assert_ne!(&sig[..32], &digest[..]);
    // `sign` signs the digest as is; `verify_signature` hashes the message first.
    let mut other = [0u8; 32];
    other[0] = 1;
    assert!(!Wallet::verify_signature(&w.public_key, &sig, &other));
    assert!(!Wallet::verify_signature(&w.public_key[..32], &sig, &digest));
}

#[test]
fn block_signatures_are_deterministic_and_verify() {
    let w = Wallet::from_secret_key(&key_one()).unwrap();
    let h = [3u8; 32];
    let mut digest = [0u8; 32];
    digest.copy_from_slice(&Sha256::digest(h));
    assert_eq!(w.sign_block(&h).unwrap(), w.sign(&digest).unwrap());
    assert_eq!(w.sign_block(&h).unwrap(), w.sign_block(&h).unwrap());
    assert!(Wallet::verify_signature(&w.public_key, &w.sign_block(&h).unwrap(), &h));
    assert!(!Wallet::verify_signature(&w.public_key, &w.sign_block(&h).unwrap(), &[4u8; 32]));
}

#[test]
fn signature_of_message_digest_verifies() {
    let w = Wallet::from_secret_key(&key_one()).unwrap();
    let message = b"block hash bytes";
    let mut digest = [0u8; 32];
    digest.copy_from_slice(&Sha256::digest(message));
    let sig = w.sign(&digest).unwrap();
    assert!(Wallet::verify_signature(&w.public_key, &sig, message));
    let mut uncompressed = vec![0x04u8];
    uncompressed.extend_from_slice(&[0u8; 64]);
    assert!(!Wallet::verify_signature(&uncompressed, &sig, message));
}
