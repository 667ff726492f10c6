//! The outside cryptography this library rests on: SHA-256 and RIPEMD-160
//! (crates `sha2`, `ripemd`), Argon2id (crate `argon2`), Base58 (crate `bs58`),
//! ECDSA over secp256k1 (crate `secp256k1`) and random numbers (crate `rand`).
//! Each function here makes one outside call; its contract is trusted, not
//! proved.

use vstd::prelude::*;

use rand::RngCore;
use ripemd::Digest as RipemdDigest;
use sha2::Digest as ShaDigest;

verus! {

/// The SHA-256 digest of `data`.
pub uninterp spec fn sha256_digest(data: Seq<u8>) -> Seq<u8>;

/// The RIPEMD-160 digest of `data`.
pub uninterp spec fn ripemd160_digest(data: Seq<u8>) -> Seq<u8>;

/// The 32-byte Argon2id (version 0x13) output for the password and salt,
/// with memory cost `m_cost` KiB, `t_cost` passes and `p_cost` lanes.
pub uninterp spec fn argon2id_digest(
    m_cost: u32,
    t_cost: u32,
    p_cost: u32,
    password: Seq<u8>,
    salt: Seq<u8>,
) -> Seq<u8>;

/// The Base58 text (Bitcoin alphabet) of `data`.
pub uninterp spec fn base58_text(data: Seq<u8>) -> Seq<char>;

/// The bytes that the Base58 text (Bitcoin alphabet) `text` decodes to, if any.
pub uninterp spec fn base58_bytes(text: Seq<char>) -> Option<Seq<u8>>;

/// The compressed (33-byte) public key of the secp256k1 secret key `secret`,
/// or `None` when `secret` is no valid secret key.
pub uninterp spec fn secp256k1_public_of(secret: Seq<u8>) -> Option<Seq<u8>>;

/// The compressed form of the secp256k1 public key encoded by `encoded`
/// (compressed or uncompressed), or `None` when `encoded` encodes no point.
pub uninterp spec fn secp256k1_compressed(encoded: Seq<u8>) -> Option<Seq<u8>>;

/// Whether `signature` (64-byte compact form) is a valid ECDSA signature of
/// the 32-byte `digest` under the public key encoded by `public_key`.
pub uninterp spec fn ecdsa_verifies(public_key: Seq<u8>, signature: Seq<u8>, digest: Seq<u8>) -> bool;

/// The compact ECDSA signature (RFC 6979 nonce) of `digest` under `secret`.
pub uninterp spec fn ecdsa_signature(secret: Seq<u8>, digest: Seq<u8>) -> Seq<u8>;

/// `Sha256::digest` of crate `sha2`: the result is the SHA-256 digest of the input.
#[verifier::external_body]
pub(crate) fn sha256(data: &[u8]) -> (res: [u8; 32])
    ensures
        res@ == sha256_digest(data@),
{
    sha2::Sha256::digest(data).into()
}

/// `Ripemd160::digest` of crate `ripemd`: the result is the RIPEMD-160 digest of the input.
#[verifier::external_body]
pub(crate) fn ripemd160(data: &[u8]) -> (res: [u8; 20])
    ensures
        res@ == ripemd160_digest(data@),
{
    ripemd::Ripemd160::digest(data).into()
}

/// `Argon2::hash_password_into` of crate `argon2`, on an Argon2id (version 0x13)
/// hasher built by `Params::new` and `Argon2::new` from the given costs. The
/// result is the named digest; the crate's source returns an error (here
/// `None`) only when the costs, the password length or the salt length are
/// out of the ranges stated below, so within them the result is `Some`.
/// More than 0xFF_FFFF lanes are left out: `Params::new` multiplies the
/// lane count by 8 in 32 bits before it refuses such a count.
#[verifier::external_body]
pub(crate) fn argon2id_hash(
    m_cost: u32,
    t_cost: u32,
    p_cost: u32,
    password: &[u8],
    salt: &[u8],
) -> (res: Option<[u8; 32]>)
    requires
        p_cost <= 0xFF_FFFF,
    ensures
        res matches Some(h) ==> h@ == argon2id_digest(m_cost, t_cost, p_cost, password@, salt@),
        (8 <= m_cost && p_cost * 8 <= m_cost && 1 <= t_cost && 1 <= p_cost && 8
            <= salt.len() <= 0xFFFF_FFFF && password.len() <= 0xFFFF_FFFF) ==> res is Some,
{
    let params = argon2::Params::new(m_cost, t_cost, p_cost, Some(32)).ok()?;
    let engine = argon2::Argon2::new(argon2::Algorithm::Argon2id, argon2::Version::V0x13, params);
    let mut out = [0u8; 32];
    engine.hash_password_into(password, salt, &mut out).ok()?;
    Some(out)
}

/// `bs58::encode(..).into_string()` of crate `bs58`: the Base58 text of the
/// input. Decoding that text gives the input back (Base58 is a bijection
/// between byte strings and valid texts).
#[verifier::external_body]
pub(crate) fn base58_encode(data: &[u8]) -> (res: String)
    ensures
        res@ == base58_text(data@),
        base58_bytes(res@) == Some(data@),
{
    bs58::encode(data).into_string()
}

/// `bs58::decode(..).into_vec()` of crate `bs58`: `Ok` with the decoded bytes
/// exactly when the text is valid Base58, else `Err` with the crate's error
/// message.
#[verifier::external_body]
pub(crate) fn base58_decode(text: &str) -> (res: Result<Vec<u8>, String>)
    ensures
        res is Ok <==> base58_bytes(text@) is Some,
        res matches Ok(v) ==> base58_bytes(text@) == Some(v@),
{
    bs58::decode(text).into_vec().map_err(|e| e.to_string())
}

/// `PublicKey::from_secret_key` of crate `secp256k1` on the key that
/// `SecretKey::from_slice` reads from `secret`, serialized compressed. `None`
/// when `secret` is no valid secret key, which by the crate's source includes
/// every input that is not 32 bytes long. Reading the compressed key back
/// gives the same key.
#[verifier::external_body]
pub(crate) fn secp256k1_public_key(secret: &[u8]) -> (res: Option<[u8; 33]>)
    ensures
        match res {
            Some(pk) => secp256k1_public_of(secret@) == Some(pk@),
            None => secp256k1_public_of(secret@) is None,
        },
        secret.len() != 32 ==> res is None,
        res matches Some(pk) ==> secp256k1_compressed(pk@) == Some(pk@),
{
    let sk = secp256k1::SecretKey::from_slice(secret).ok()?;
    Some(secp256k1::PublicKey::from_secret_key(&secp256k1::Secp256k1::signing_only(), &sk).serialize())
}

/// `SecretKey::new` of crate `secp256k1` with the operating system's random
/// source; by the crate's source it draws until the bytes are a valid secret
/// key. Nothing else is known of the result: it is random.
#[verifier::external_body]
pub(crate) fn secp256k1_random_secret() -> (res: [u8; 32])
    ensures
        secp256k1_public_of(res@) is Some,
{
    secp256k1::SecretKey::new(&mut rand::rngs::OsRng).secret_bytes()
}

/// `PublicKey::from_slice` of crate `secp256k1`, serialized compressed: `None`
/// when the bytes encode no point.
#[verifier::external_body]
pub(crate) fn secp256k1_compress(encoded: &[u8]) -> (res: Option<[u8; 33]>)
    ensures
        match res {
            Some(pk) => secp256k1_compressed(encoded@) == Some(pk@),
            None => secp256k1_compressed(encoded@) is None,
        },
{
    let pk = secp256k1::PublicKey::from_slice(encoded).ok()?;
    Some(pk.serialize())
}

/// `Secp256k1::sign_ecdsa` of crate `secp256k1` (deterministic, RFC 6979) on
/// the secret key that `SecretKey::from_slice` reads from `secret`,
/// serialized in compact form. `Err`, with the crate's error message,
/// exactly when `secret` is no valid secret key. As the crate documents, the
/// signature verifies under the secret key's public key.
#[verifier::external_body]
pub(crate) fn secp256k1_sign(secret: &[u8], digest: &[u8; 32]) -> (res: Result<[u8; 64], String>)
    ensures
        res is Ok <==> secp256k1_public_of(secret@) is Some,
        res matches Ok(sig) ==> sig@ == ecdsa_signature(secret@, digest@) && ecdsa_verifies(
            secp256k1_public_of(secret@).unwrap(),
            sig@,
            digest@,
        ),
{
    let sk = secp256k1::SecretKey::from_slice(secret).map_err(|e| e.to_string())?;
    let msg = secp256k1::Message::from_digest(*digest);
    Ok(secp256k1::Secp256k1::signing_only().sign_ecdsa(&msg, &sk).serialize_compact())
}

/// `Secp256k1::verify_ecdsa` of crate `secp256k1`, on the public key read by
/// `PublicKey::from_slice` and the signature read by `Signature::from_compact`;
/// `false` when either cannot be read or the signature does not verify.
#[verifier::external_body]
pub(crate) fn secp256k1_verify(public_key: &[u8], signature: &[u8], digest: &[u8; 32]) -> (res: bool)
    ensures
        res == ecdsa_verifies(public_key@, signature@, digest@),
{
    let pk = match secp256k1::PublicKey::from_slice(public_key) {
        Ok(pk) => pk,
        Err(_) => return false,
    };
    let sig = match secp256k1::ecdsa::Signature::from_compact(signature) {
        Ok(s) => s,
        Err(_) => return false,
    };
    let msg = secp256k1::Message::from_digest(*digest);
    secp256k1::Secp256k1::verification_only().verify_ecdsa(&msg, &sig, &pk).is_ok()
}

/// `RngCore::fill_bytes` on `rand::thread_rng()`: 32 random bytes. Nothing
/// is known of them.
#[verifier::external_body]
pub(crate) fn random_bytes32() -> (res: [u8; 32]) {
    let mut out = [0u8; 32];
    rand::thread_rng().fill_bytes(&mut out);
    out
}

/// `RngCore::next_u64` on `rand::thread_rng()`: a random number. Nothing is
/// known of it.
#[verifier::external_body]
pub(crate) fn random_u64() -> (res: u64) {
    rand::thread_rng().next_u64()
}

} // verus!
