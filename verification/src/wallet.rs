//! Wallets: a secp256k1 key pair, the miner identity derived from the public
//! key, and the Base58 address of that identity.

use vstd::prelude::*;

use crate::crypto::{
    base58_bytes, base58_encode, base58_text, ecdsa_signature, ecdsa_verifies, ripemd160, ripemd160_digest, secp256k1_public_key,
    secp256k1_public_of, secp256k1_random_secret, secp256k1_sign, secp256k1_verify, sha256,
    sha256_digest,
};
use crate::encoding::append_bytes;
use crate::types::{Hash32, MinerId};

verus! {

/// The miner identity of a public key: RIPEMD160(SHA256(key)).
pub open spec fn miner_id_of(public_key: Seq<u8>) -> Seq<u8> {
    ripemd160_digest(sha256_digest(public_key))
}

/// The version byte zero, the identity, and the first four bytes of the
/// double SHA-256 of those two.
pub open spec fn address_payload(id: Seq<u8>) -> Seq<u8> {
    let with_version = seq![0u8] + id;
    with_version + sha256_digest(sha256_digest(with_version)).subrange(0, 4)
}

/// The address of a miner identity: the Base58 text of its payload.
pub open spec fn address_of(id: Seq<u8>) -> Seq<char> {
    base58_text(address_payload(id))
}

/// A key pair with its derived identity and address.
#[derive(Clone, Debug)]
pub struct Wallet {
    pub secret_key: Vec<u8>,
    pub public_key: Vec<u8>,
    pub miner_id: MinerId,
    pub address: String,
}

impl Wallet {
    /// The public key is the 33-byte compressed key of the secret key, the identity
    /// and address are derived from it, and the address decodes back to its
    /// 25-byte payload.
    pub open spec fn wf(&self) -> bool {
        &&& secp256k1_public_of(self.secret_key@) == Some(self.public_key@)
        &&& self.public_key@.len() == 33
        &&& self.miner_id@ == miner_id_of(self.public_key@)
        &&& self.address@ == address_of(self.miner_id@)
        &&& address_payload(self.miner_id@).len() == 25
        &&& base58_bytes(self.address@) == Some(address_payload(self.miner_id@))
    }

    fn from_valid_key(secret: [u8; 32], public_key: [u8; 33]) -> (res: Self)
        requires
            secp256k1_public_of(secret@) == Some(public_key@),
        ensures
            res.wf(),
            res.secret_key@ == secret@,
    {
        let miner_id = Self::miner_id_from_pubkey(&public_key);
        let address = Self::address_from_miner_id(&miner_id);
        let mut sk: Vec<u8> = Vec::new();
        append_bytes(&mut sk, secret.as_slice());
        let mut pk: Vec<u8> = Vec::new();
        append_bytes(&mut pk, public_key.as_slice());
        Wallet { secret_key: sk, public_key: pk, miner_id, address }
    }

    /// A wallet with a fresh random key. It never fails.
    pub fn generate() -> (res: Result<Self, String>)
        ensures
            res matches Ok(w) && w.wf(),
    {
        let secret = secp256k1_random_secret();
        match secp256k1_public_key(secret.as_slice()) {
            Some(pk) => Ok(Self::from_valid_key(secret, pk)),
            None => {
                proof {
                    assert(false);
                }
                Err(String::new())
            },
        }
    }

    /// The wallet of a 32-byte secret key; `Err` when the length is not 32 or
    /// the bytes are no valid secp256k1 secret key.
    pub fn from_secret_key(secret_bytes: &[u8]) -> (res: Result<Self, String>)
        ensures
            res is Ok <==> (secret_bytes.len() == 32 && secp256k1_public_of(secret_bytes@) is Some),
            res matches Ok(w) ==> w.wf() && w.secret_key@ == secret_bytes@,
            secret_bytes.len() != 32 ==> (res matches Err(e) && e@ == "Invalid secret key length"@),
            secret_bytes.len() == 32 && secp256k1_public_of(secret_bytes@) is None ==> (res matches Err(
                e,
            ) && e@ == "Invalid secret key"@),
    {
        if secret_bytes.len() != 32 {
            proof {
                reveal_strlit("Invalid secret key length");
            }
            return Err("Invalid secret key length".to_string());
        }
        let mut arr = [0u8; 32];
        let mut i: usize = 0;
        while i < 32
            invariant
                i <= 32,
                secret_bytes.len() == 32,
                forall|j: int| 0 <= j < i ==> arr@[j] == secret_bytes@[j],
            decreases 32 - i,
        {
            arr[i] = secret_bytes[i];
            i = i + 1;
        }
        proof {
            assert(arr@ =~= secret_bytes@);
        }
        match secp256k1_public_key(arr.as_slice()) {
            Some(pk) => Ok(Self::from_valid_key(arr, pk)),
            None => {
                proof {
                    reveal_strlit("Invalid secret key");
                }
                Err("Invalid secret key".to_string())
            },
        }
    }

    /// The miner identity of a compressed public key.
    pub fn miner_id_from_pubkey(pubkey: &[u8; 33]) -> (res: MinerId)
        ensures
            res@ == miner_id_of(pubkey@),
    {
        let sha = sha256(pubkey.as_slice());
        ripemd160(sha.as_slice())
    }

    /// The address of a miner identity.
    pub fn address_from_miner_id(miner_id: &MinerId) -> (res: String)
        ensures
            res@ == address_of(miner_id@),
            address_payload(miner_id@).len() == 25,
            base58_bytes(res@) == Some(address_payload(miner_id@)),
    {
        let mut with_version: Vec<u8> = Vec::new();
        with_version.push(0u8);
        append_bytes(&mut with_version, miner_id.as_slice());
        let first = sha256(with_version.as_slice());
        let second = sha256(first.as_slice());
        let ghost payload_start = with_version@;
        let mut i: usize = 0;
        while i < 4
            invariant
                i <= 4,
                with_version@ == payload_start + second@.subrange(0, i as int),
            decreases 4 - i,
        {
            with_version.push(second[i]);
            proof {
                assert(second@.subrange(0, i + 1) =~= second@.subrange(0, i as int).push(
                    second@[i as int],
                ));
            }
            i = i + 1;
        }
        proof {
            assert(payload_start =~= seq![0u8] + miner_id@);
            assert(with_version@ =~= address_payload(miner_id@));
        }
        base58_encode(with_version.as_slice())
    }

    /// Whether `signature` is a valid signature, under a 33- or 65-byte public
    /// key, of the SHA-256 digest of `message`.
    pub fn verify_signature(pubkey_bytes: &[u8], signature: &[u8], message: &[u8]) -> (res: bool)
        ensures
            res == ((pubkey_bytes.len() == 33 || pubkey_bytes.len() == 65) && ecdsa_verifies(
                pubkey_bytes@,
                signature@,
                sha256_digest(message@),
            )),
    {
        if pubkey_bytes.len() != 33 && pubkey_bytes.len() != 65 {
            return false;
        }
        let msg_hash = sha256(message);
        secp256k1_verify(pubkey_bytes, signature, &msg_hash)
    }

    /// Signs a block hash: the signature of its SHA-256 digest, so that
    /// `verify_signature` accepts it for the hash under the wallet's key.
    pub fn sign_block(&self, block_hash: &Hash32) -> (res: Result<Vec<u8>, String>)
        ensures
            res is Ok <==> (self.secret_key.len() == 32 && secp256k1_public_of(self.secret_key@) is Some),
            res matches Ok(sig) ==> sig@.len() == 64 && sig@ == ecdsa_signature(
                self.secret_key@,
                sha256_digest(block_hash@),
            ) && ecdsa_verifies(
                secp256k1_public_of(self.secret_key@).unwrap(),
                sig@,
                sha256_digest(block_hash@),
            ),
    {
        let digest = sha256(block_hash.as_slice());
        self.sign(&digest)
    }

    /// The 64-byte compact signature of the 32-byte `message` (signed as is,
    /// not hashed again); `Err` when the secret key is not 32 bytes or invalid.
    pub fn sign(&self, message: &[u8; 32]) -> (res: Result<Vec<u8>, String>)
        ensures
            res is Ok <==> (self.secret_key.len() == 32 && secp256k1_public_of(self.secret_key@) is Some),
            res matches Ok(sig) ==> sig@.len() == 64 && sig@ == ecdsa_signature(
                self.secret_key@,
                message@,
            ) && ecdsa_verifies(secp256k1_public_of(self.secret_key@).unwrap(), sig@, message@),
            self.secret_key.len() != 32 ==> (res matches Err(e) && e@ == "Invalid secret key"@),
    {
        if self.secret_key.len() != 32 {
            proof {
                reveal_strlit("Invalid secret key");
            }
            return Err("Invalid secret key".to_string());
        }
        match secp256k1_sign(self.secret_key.as_slice(), message) {
            Ok(sig) => {
                let mut out: Vec<u8> = Vec::new();
                append_bytes(&mut out, sig.as_slice());
                Ok(out)
            },
            Err(e) => Err(e),
        }
    }

    /// The public key's bytes.
    pub fn public_key_bytes(&self) -> (res: &[u8])
        ensures
            res@ == self.public_key@,
    {
        self.public_key.as_slice()
    }
}

} // verus!
