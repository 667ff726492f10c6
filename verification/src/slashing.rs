//! Equivocation: a miner that signs two different blocks at one height
//! loses its bond. Proofs of it, their verification against the stored
//! blocks, the record of a slash, and the pool of proofs awaiting one.

use vstd::prelude::*;

use crate::bond::Bond;
use crate::crypto::{ecdsa_verifies, secp256k1_compress, secp256k1_compressed, sha256_digest};
use crate::encoding::{append_bytes, arrays_equal};
use crate::header::{header_encoding, pow_hash, Argon2Cache};
use crate::tx::{is_bond_script, is_coinbase_tx, Block, TxOut};
use crate::types::{Hash32, Height, MinerId, Timestamp};
use crate::wallet::{miner_id_of, Wallet};

verus! {

/// A claim that a miner signed two different blocks at one height.
pub struct EquivocationProof {
    pub miner_id: MinerId,
    pub block_height: Height,
    pub block_hash_1: Hash32,
    pub block_hash_2: Hash32,
    pub signature_1: Vec<u8>,
    pub signature_2: Vec<u8>,
    pub timestamp: Timestamp,
    pub proven: bool,
}

/// The record of a slash: whose bond, how much, at which height and time,
/// and the encoded proof.
pub struct SlashRecord {
    pub miner_id: MinerId,
    pub amount: u64,
    pub height: Height,
    pub timestamp: Timestamp,
    pub proof: Vec<u8>,
}

/// The miner identity named by the first bond output from index `k` on.
pub open spec fn first_bond_id(outputs: Seq<TxOut>, k: int) -> Option<Seq<u8>>
    decreases outputs.len() - k,
{
    if k < 0 || k >= outputs.len() {
        None
    } else if is_bond_script(outputs[k].script_pubkey@) {
        Some(outputs[k].script_pubkey@.subrange(1, 21))
    } else {
        first_bond_id(outputs, k + 1)
    }
}

/// The miner identity a block names: that of the first bond output of its
/// coinbase when its first transaction is one and has such an output, else
/// that of its public key when it carries a readable one.
pub open spec fn block_miner_id(b: Block) -> Option<Seq<u8>> {
    let from_coinbase = if b.transactions@.len() > 0 && is_coinbase_tx(b.transactions@[0]) {
        first_bond_id(b.transactions@[0].outputs@, 0)
    } else {
        None
    };
    if from_coinbase is Some {
        from_coinbase
    } else {
        match b.pubkey {
            Some(pk) => match secp256k1_compressed(pk@) {
                Some(c) => Some(miner_id_of(c)),
                None => None,
            },
            None => None,
        }
    }
}

/// The block a storage lookup gave, or the error: the storage's own, or
/// `missing` when there was no block.
pub open spec fn looked_up(lookup: Result<Option<Block>, String>, missing: Seq<char>) -> Result<
    Block,
    Seq<char>,
> {
    match lookup {
        Err(e) => Err(e@),
        Ok(None) => Err(missing),
        Ok(Some(b)) => Ok(b),
    }
}

/// The block carries a signature and a public key of 33 or 65 bytes, and
/// the signature verifies for the SHA-256 digest of `hash`.
pub open spec fn block_signed(b: Block, hash: Seq<u8>) -> bool {
    match (b.signature, b.pubkey) {
        (Some(sig), Some(pk)) => (pk@.len() == 33 || pk@.len() == 65) && ecdsa_verifies(
            pk@,
            sig@,
            sha256_digest(hash),
        ),
        _ => false,
    }
}

/// A signature, under the public key a block carries, of the SHA-256
/// digest of `hash`.
pub open spec fn signed_under_key(b: Block, sig: Seq<u8>, hash: Seq<u8>) -> bool {
    match b.pubkey {
        Some(pk) => (pk@.len() == 33 || pk@.len() == 65) && ecdsa_verifies(pk@, sig, sha256_digest(hash)),
        None => false,
    }
}

/// What checking a proof against the looked-up block stored at its height
/// gives: an error when the lookup failed or the stored block names no
/// miner; `Ok(true)` exactly when the stored block is the proof's first
/// block, the proof's second hash differs from it, the stored block is
/// signed and names the proof's miner, and the proof's second signature
/// verifies for the second hash under the stored block's key (the same
/// miner signed two blocks at one height).
pub open spec fn equivocation_check(
    p: EquivocationProof,
    lookup: Result<Option<Block>, String>,
) -> Result<bool, Seq<char>> {
    match looked_up(lookup, "Block 1 not found"@) {
        Err(e) => Err(e),
        Ok(b) => {
            let h = pow_hash(header_encoding(b.header));
            if h != p.block_hash_1@ || p.block_hash_1 == p.block_hash_2 {
                Ok(false)
            } else if !block_signed(b, h) {
                Ok(false)
            } else {
                match block_miner_id(b) {
                    Some(m) => Ok(m == p.miner_id@ && signed_under_key(b, p.signature_2@, p.block_hash_2@)),
                    None => Err("Cannot extract miner_id from block"@),
                }
            }
        },
    }
}

/// The bytes of an optional byte string, or none.
pub open spec fn bytes_or_empty(v: Option<Vec<u8>>) -> Seq<u8> {
    match v {
        Some(x) => x@,
        None => Seq::empty(),
    }
}

fn copy_bytes(v: &Vec<u8>) -> (res: Vec<u8>)
    ensures
        res@ == v@,
{
    let mut out: Vec<u8> = Vec::new();
    append_bytes(&mut out, v.as_slice());
    out
}

fn signed_by(b: &Block, hash: &Hash32) -> (res: bool)
    ensures
        res == block_signed(*b, hash@),
{
    match (&b.signature, &b.pubkey) {
        (Some(sig), Some(pk)) => Wallet::verify_signature(pk.as_slice(), sig.as_slice(), hash.as_slice()),
        _ => false,
    }
}

impl EquivocationProof {
    /// The height of the second block: the proof's height.
    pub fn block_height_2(&self) -> (res: Height)
        ensures
            res == self.block_height,
    {
        self.block_height
    }

    /// The miner identity a block names (see `block_miner_id`).
    pub fn extract_miner_id_from_block(block: &Block) -> (res: Result<MinerId, String>)
        ensures
            match block_miner_id(*block) {
                Some(id) => res matches Ok(m) && m@ == id,
                None => res matches Err(e) && e@ == "Cannot extract miner_id from block"@,
            },
    {
        if block.transactions.len() > 0 {
            let coinbase = &block.transactions[0];
            if coinbase.is_coinbase() {
                let mut k: usize = 0;
                while k < coinbase.outputs.len()
                    invariant
                        block.transactions@.len() > 0,
                        block.transactions@[0] == *coinbase,
                        is_coinbase_tx(*coinbase),
                        k <= coinbase.outputs@.len(),
                        first_bond_id(coinbase.outputs@, 0) == first_bond_id(coinbase.outputs@, k as int),
                    decreases coinbase.outputs@.len() - k,
                {
                    match coinbase.outputs[k].extract_miner_id() {
                        Some(id) => {
                            proof {
                                assert(first_bond_id(coinbase.outputs@, k as int) == Some(id@));
                                assert(block.transactions@[0] == *coinbase);
                            }
                            return Ok(id);
                        },
                        None => {},
                    }
                    k = k + 1;
                }
            }
        }
        match &block.pubkey {
            Some(pk) => match secp256k1_compress(pk.as_slice()) {
                Some(c) => {
                    return Ok(Wallet::miner_id_from_pubkey(&c));
                },
                None => {},
            },
            None => {},
        }
        Err("Cannot extract miner_id from block".to_string())
    }

    /// Checks the proof against the stored block at its height (see
    /// `equivocation_check`).
    pub fn verify(
        &self,
        lookup: &Result<Option<Block>, String>,
        argon2: &mut Argon2Cache,
        now: Timestamp,
    ) -> (res: Result<bool, String>)
        ensures
            match equivocation_check(*self, *lookup) {
                Ok(b) => res == Ok::<bool, String>(b),
                Err(e) => res matches Err(r) && r@ == e,
            },
            lookup matches Err(e) ==> res == Err::<bool, String>(*e),
            lookup matches Ok(None) ==> res matches Err(r) && r@ == "Block 1 not found"@,
            res == Ok::<bool, String>(true) <==> (lookup matches Ok(Some(b)) && {
                let h = pow_hash(header_encoding(b.header));
                &&& h == self.block_hash_1@
                &&& self.block_hash_1 != self.block_hash_2
                &&& match (b.signature, b.pubkey) {
                    (Some(sig), Some(pk)) => (pk@.len() == 33 || pk@.len() == 65) && ecdsa_verifies(
                        pk@,
                        sig@,
                        sha256_digest(h),
                    ) && ecdsa_verifies(pk@, self.signature_2@, sha256_digest(self.block_hash_2@)),
                    _ => false,
                }
                &&& block_miner_id(*b) == Some(self.miner_id@)
            }),
    {
        let block = match lookup {
            Err(e) => {
                return Err(e.clone());
            },
            Ok(None) => {
                return Err("Block 1 not found".to_string());
            },
            Ok(Some(b)) => b,
        };
        let hash = block.header.hash(argon2, now);
        if !arrays_equal(&hash, &self.block_hash_1) || arrays_equal(&self.block_hash_1, &self.block_hash_2) {
            return Ok(false);
        }
        if !signed_by(block, &hash) {
            return Ok(false);
        }
        let id = match Self::extract_miner_id_from_block(block) {
            Ok(m) => m,
            Err(e) => {
                return Err(e);
            },
        };
        if !arrays_equal(&id, &self.miner_id) {
            return Ok(false);
        }
        let second = match &block.pubkey {
            Some(pk) => Wallet::verify_signature(
                pk.as_slice(),
                self.signature_2.as_slice(),
                self.block_hash_2.as_slice(),
            ),
            None => false,
        };
        Ok(second)
    }

    /// A proof from two blocks at `height`, made at `now`: the miner the
    /// first block names, both blocks' hashes and their signatures (none
    /// read as empty). An error when the first block names no miner.
    pub fn from_blocks(block1: &Block, block2: &Block, height: Height, now: Timestamp) -> (res: Result<
        Self,
        String,
    >)
        ensures
            match block_miner_id(*block1) {
                Some(id) => res matches Ok(p) && {
                    &&& p.miner_id@ == id
                    &&& p.block_height == height
                    &&& p.block_hash_1@ == pow_hash(header_encoding(block1.header))
                    &&& p.block_hash_2@ == pow_hash(header_encoding(block2.header))
                    &&& p.signature_1@ == bytes_or_empty(block1.signature)
                    &&& p.signature_2@ == bytes_or_empty(block2.signature)
                    &&& p.timestamp == now
                    &&& !p.proven
                },
                None => res matches Err(e) && e@ == "Cannot extract miner_id from block"@,
            },
    {
        let miner_id = match Self::extract_miner_id_from_block(block1) {
            Ok(m) => m,
            Err(e) => {
                return Err(e);
            },
        };
        let mut argon2 = Argon2Cache::new(100);
        let hash1 = block1.header.hash(&mut argon2, now);
        let hash2 = block2.header.hash(&mut argon2, now);
        let signature_1 = match &block1.signature {
            Some(s) => copy_bytes(s),
            None => Vec::new(),
        };
        let signature_2 = match &block2.signature {
            Some(s) => copy_bytes(s),
            None => Vec::new(),
        };
        Ok(EquivocationProof {
            miner_id,
            block_height: height,
            block_hash_1: hash1,
            block_hash_2: hash2,
            signature_1,
            signature_2,
            timestamp: now,
            proven: false,
        })
    }

    /// The amount a slash burns: that of the miner's bond, found by a
    /// storage lookup; the storage's error, or an error when there is none.
    pub fn slashed_amount(&self, bond: &Result<Option<Bond>, String>) -> (res: Result<u64, String>)
        ensures
            match *bond {
                Err(e) => res matches Err(r) && r@ == e@,
                Ok(None) => res matches Err(r) && r@ == "No bond found for miner"@,
                Ok(Some(b)) => res == Ok::<u64, String>(b.amount),
            },
    {
        match bond {
            Err(e) => Err(e.clone()),
            Ok(None) => Err("No bond found for miner".to_string()),
            Ok(Some(b)) => Ok(b.amount),
        }
    }

    /// The record of slashing this proof's miner by `amount` at `height` and
    /// `now`, with the encoded proof.
    pub fn slash_record(&self, amount: u64, height: Height, now: Timestamp, proof: Vec<u8>) -> (res:
        SlashRecord)
        ensures
            res.miner_id == self.miner_id,
            res.amount == amount,
            res.height == height,
            res.timestamp == now,
            res.proof@ == proof@,
    {
        SlashRecord { miner_id: self.miner_id, amount, height, timestamp: now, proof }
    }
}

/// The set of miners a sequence holds.
pub open spec fn miner_set(s: Seq<MinerId>) -> Set<MinerId> {
    Set::new(|m: MinerId| s.contains(m))
}

/// The equivocation proofs awaiting a slash, the miners already slashed,
/// and the height of the last round of slashing.
pub struct SlashingPool {
    pending_slashes: Vec<EquivocationProof>,
    processed_slashes: Vec<MinerId>,
    slash_height: Height,
}

impl SlashingPool {
    /// The proofs awaiting a slash, in the order added.
    pub closed spec fn pending(&self) -> Seq<EquivocationProof> {
        self.pending_slashes@
    }

    /// The miners already slashed.
    pub closed spec fn slashed(&self) -> Set<MinerId> {
        miner_set(self.processed_slashes@)
    }

    /// The height of the last round of slashing.
    pub closed spec fn last_round(&self) -> Height {
        self.slash_height
    }

    /// An empty pool.
    pub fn new() -> (res: Self)
        ensures
            res.pending().len() == 0,
            res.slashed() == Set::<MinerId>::empty(),
            res.last_round() == 0,
    {
        let r = SlashingPool { pending_slashes: Vec::new(), processed_slashes: Vec::new(), slash_height: 0 };
        proof {
            assert(r.slashed() =~= Set::<MinerId>::empty());
        }
        r
    }

    /// Whether `miner_id` was slashed.
    pub fn is_slashed(&self, miner_id: &MinerId) -> (res: bool)
        ensures
            res == self.slashed().contains(*miner_id),
    {
        let mut i: usize = 0;
        while i < self.processed_slashes.len()
            invariant
                i <= self.processed_slashes@.len(),
                forall|j: int| 0 <= j < i ==> self.processed_slashes@[j] != *miner_id,
            decreases self.processed_slashes@.len() - i,
        {
            if arrays_equal(&self.processed_slashes[i], miner_id) {
                proof {
                    assert(self.processed_slashes@.contains(*miner_id));
                }
                return true;
            }
            i = i + 1;
        }
        false
    }

    /// Queues a proof, unless its miner was already slashed.
    pub fn add_proof(&mut self, proof: EquivocationProof)
        ensures
            final(self).pending() == if old(self).slashed().contains(proof.miner_id) {
                old(self).pending()
            } else {
                old(self).pending().push(proof)
            },
            final(self).slashed() == old(self).slashed(),
            final(self).last_round() == old(self).last_round(),
    {
        if !self.is_slashed(&proof.miner_id) {
            self.pending_slashes.push(proof);
        }
    }

    /// The proofs awaiting a slash.
    pub fn pending_proofs(&self) -> (res: &[EquivocationProof])
        ensures
            res@ == self.pending(),
    {
        self.pending_slashes.as_slice()
    }

    /// Records that `miner_id` was slashed.
    pub fn mark_slashed(&mut self, miner_id: MinerId)
        ensures
            final(self).slashed() == old(self).slashed().insert(miner_id),
            final(self).pending() == old(self).pending(),
            final(self).last_round() == old(self).last_round(),
    {
        if !self.is_slashed(&miner_id) {
            let ghost before = self.processed_slashes@;
            self.processed_slashes.push(miner_id);
            proof {
                assert forall|m: MinerId| #[trigger] self.slashed().contains(m) == old(self).slashed().insert(
                    miner_id,
                ).contains(m) by {
                    if self.processed_slashes@.contains(m) && m != miner_id {
                        let k = choose|k: int| 0 <= k < self.processed_slashes@.len() && self.processed_slashes@[k] == m;
                        assert(k < before.len());
                        assert(before[k] == m);
                    }
                    if before.contains(m) {
                        let k = choose|k: int| 0 <= k < before.len() && before[k] == m;
                        assert(self.processed_slashes@[k] == m);
                    }
                    if m == miner_id {
                        assert(self.processed_slashes@[before.len() as int] == m);
                    }
                }
                assert(self.slashed() =~= old(self).slashed().insert(miner_id));
            }
        } else {
            proof {
                assert(old(self).slashed().insert(miner_id) =~= old(self).slashed());
            }
        }
    }

    /// Ends a round of slashing at `height`: no proof awaits any more.
    pub fn finish_round(&mut self, height: Height)
        ensures
            final(self).pending().len() == 0,
            final(self).slashed() == old(self).slashed(),
            final(self).last_round() == height,
    {
        self.pending_slashes = Vec::new();
        self.slash_height = height;
    }
}

} // verus!
