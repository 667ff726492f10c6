//! Shares (proof-of-work solutions easier than a block) and their
//! aggregation into one signed commitment per miner.

use vstd::prelude::*;

use vstd::bytes::{spec_u32_to_le_bytes, spec_u64_to_le_bytes};

use crate::bignum::be_value;
use crate::crypto::{ecdsa_signature, ecdsa_verifies, secp256k1_public_of, secp256k1_verify, sha256, sha256_digest};
use crate::encoding::{append_bytes, append_u32_le, append_u64_le, arrays_equal};
use crate::header::{header_encoding, pow_hash, prefilter_passes, Argon2Cache, BlockHeader};
use crate::merkle::{merkle_root, merkle_root_of};
use crate::target::Target;
use crate::types::{Hash32, MinerId, Timestamp};
use crate::wallet::{miner_id_of, Wallet};

verus! {

/// A share: a header and nonce whose hash meets the share target, found by a miner.
#[derive(Clone, Copy, Debug)]
pub struct Share {
    pub miner_id: MinerId,
    pub header: BlockHeader,
    pub nonce: u64,
    pub hash: Hash32,
    pub timestamp: Timestamp,
}

/// The hash that identifies a share: SHA-256 of the miner identity, the
/// header encoding, the little-endian nonce and the share's hash.
pub open spec fn share_hash_of(s: Share) -> Seq<u8> {
    sha256_digest(
        s.miner_id@ + header_encoding(s.header) + spec_u64_to_le_bytes(s.nonce) + s.hash@,
    )
}

/// The identifying hashes of a sequence of shares.
pub open spec fn share_hashes_of(shares: Seq<Share>) -> Seq<Seq<u8>> {
    shares.map_values(|s: Share| share_hash_of(s))
}

/// The first rule a share breaks at `now`, if any: it must build on the
/// expected previous block, belong to the expected epoch, be stamped within
/// two hours of `now`, pass the prefilter, carry the true hash of its header
/// with its nonce, and that hash must meet the share target.
pub open spec fn share_check(
    s: Share,
    target_share: Target,
    expected_prev_hash: Hash32,
    expected_epoch: u32,
    now: Timestamp,
) -> Option<Seq<char>> {
    if s.header.prev_hash != expected_prev_hash {
        Some("Stale prev_hash"@)
    } else if s.header.epoch_index != expected_epoch {
        Some("Wrong epoch"@)
    } else if s.timestamp < now - 7200 {
        Some("Share too old"@)
    } else if s.timestamp > now + 7200 {
        Some("Share too far in future"@)
    } else if !prefilter_passes(header_encoding(s.header), s.nonce, target_share) {
        Some("Prefilter rejected"@)
    } else if pow_hash(header_encoding(BlockHeader { nonce: s.nonce, ..s.header })) != s.hash@ {
        Some("Hash mismatch"@)
    } else if !(be_value(s.hash@) < be_value(target_share.0@)) {
        Some("Target not met"@)
    } else {
        None
    }
}

/// A share passes the checks exactly when it builds on the expected block,
/// names the expected epoch, is stamped within two hours of `now`, passes
/// the prefilter, carries the true proof-of-work hash of its header and
/// nonce, and that hash is below the share target.
pub proof fn lemma_share_accepted_exactly(
    s: Share,
    target_share: Target,
    expected_prev_hash: Hash32,
    expected_epoch: u32,
    now: Timestamp,
)
    ensures
        share_check(s, target_share, expected_prev_hash, expected_epoch, now) is None <==> {
            &&& s.header.prev_hash == expected_prev_hash
            &&& s.header.epoch_index == expected_epoch
            &&& now - 7200 <= s.timestamp <= now + 7200
            &&& prefilter_passes(header_encoding(s.header), s.nonce, target_share)
            &&& s.hash@ == pow_hash(header_encoding(BlockHeader { nonce: s.nonce, ..s.header }))
            &&& be_value(s.hash@) < be_value(target_share.0@)
        },
{
}

impl Share {
    /// A share stamped `now`.
    pub fn new(miner_id: MinerId, header: BlockHeader, nonce: u64, hash: Hash32, now: Timestamp) -> (res: Self)
        ensures
            res == (Share { miner_id, header, nonce, hash, timestamp: now }),
    {
        Share { miner_id, header, nonce, hash, timestamp: now }
    }

    /// The share's identifying hash.
    pub fn share_hash(&self) -> (res: Hash32)
        ensures
            res@ == share_hash_of(*self),
    {
        let mut data: Vec<u8> = Vec::new();
        append_bytes(&mut data, self.miner_id.as_slice());
        let header = self.header.to_bytes();
        append_bytes(&mut data, header.as_slice());
        append_u64_le(&mut data, self.nonce);
        append_bytes(&mut data, self.hash.as_slice());
        sha256(data.as_slice())
    }

    /// Checks the share at `now` (see `share_check`).
    pub fn validate(
        &self,
        target_share: &Target,
        expected_prev_hash: &Hash32,
        expected_epoch: u32,
        now: Timestamp,
        argon2: &mut Argon2Cache,
    ) -> (res: Result<(), &'static str>)
        requires
            7200 <= now <= u64::MAX - 7200,
        ensures
            match share_check(*self, *target_share, *expected_prev_hash, expected_epoch, now) {
                Some(msg) => res matches Err(e) && e@ == msg,
                None => res is Ok,
            },
            res is Ok <==> {
                &&& self.header.prev_hash == *expected_prev_hash
                &&& self.header.epoch_index == expected_epoch
                &&& now - 7200 <= self.timestamp <= now + 7200
                &&& prefilter_passes(header_encoding(self.header), self.nonce, *target_share)
                &&& self.hash@ == pow_hash(header_encoding(BlockHeader { nonce: self.nonce, ..self.header }))
                &&& be_value(self.hash@) < be_value(target_share.0@)
            },
    {
        if !arrays_equal(&self.header.prev_hash, expected_prev_hash) {
            proof {
                reveal_strlit("Stale prev_hash");
            }
            return Err("Stale prev_hash");
        }
        if self.header.epoch_index != expected_epoch {
            proof {
                reveal_strlit("Wrong epoch");
            }
            return Err("Wrong epoch");
        }
        if self.timestamp < now - 7200 {
            proof {
                reveal_strlit("Share too old");
            }
            return Err("Share too old");
        }
        if self.timestamp > now + 7200 {
            proof {
                reveal_strlit("Share too far in future");
            }
            return Err("Share too far in future");
        }
        let header_bytes = self.header.to_bytes();
        if !Argon2Cache::prefilter(&header_bytes, self.nonce, target_share) {
            proof {
                reveal_strlit("Prefilter rejected");
            }
            return Err("Prefilter rejected");
        }
        let computed_hash = self.header.hash_with_nonce(self.nonce, argon2, now);
        if !arrays_equal(&computed_hash, &self.hash) {
            proof {
                reveal_strlit("Hash mismatch");
            }
            return Err("Hash mismatch");
        }
        if !target_share.is_met_by(&self.hash) {
            proof {
                reveal_strlit("Target not met");
            }
            return Err("Target not met");
        }
        Ok(())
    }
}

/// A miner's signed commitment to a batch of its shares.
#[derive(Clone, Debug)]
pub struct AggregatedShare {
    pub miner_id: MinerId,
    pub share_count: u32,
    pub merkle_root: Hash32,
    pub signature: Vec<u8>,
    pub timestamp: Timestamp,
    pub epoch: u32,
}

/// The digest an aggregate's signature covers: SHA-256 of the miner
/// identity, the little-endian count, the merkle root, the little-endian
/// epoch and the little-endian timestamp.
pub open spec fn aggregate_message(
    miner_id: MinerId,
    share_count: u32,
    merkle_root: Hash32,
    epoch: u32,
    timestamp: Timestamp,
) -> Seq<u8> {
    sha256_digest(
        miner_id@ + spec_u32_to_le_bytes(share_count) + merkle_root@ + spec_u32_to_le_bytes(epoch)
            + spec_u64_to_le_bytes(timestamp),
    )
}

/// All the shares were found by `miner`.
pub open spec fn all_from(shares: Seq<Share>, miner: MinerId) -> bool {
    forall|i: int| 0 <= i < shares.len() ==> (#[trigger] shares[i]).miner_id == miner
}

/// Whether an aggregate matches the shares: same count, same miner for
/// every share, and the merkle root of their identifying hashes.
pub open spec fn aggregate_matches(agg: AggregatedShare, shares: Seq<Share>) -> bool {
    &&& shares.len() as u32 == agg.share_count
    &&& all_from(shares, agg.miner_id)
    &&& shares.len() > 0
    &&& agg.merkle_root@ == merkle_root_of(share_hashes_of(shares))
}

/// Whether an aggregate is accepted for the shares under the signer's
/// compressed public key `pk`: it matches the shares, `pk` is the key of
/// the aggregate's miner, and the signature verifies under `pk` for the
/// aggregate's commitment.
pub open spec fn aggregate_valid(agg: AggregatedShare, shares: Seq<Share>, pk: Seq<u8>) -> bool {
    &&& aggregate_matches(agg, shares)
    &&& agg.miner_id@ == miner_id_of(pk)
    &&& ecdsa_verifies(
        pk,
        agg.signature@,
        aggregate_message(agg.miner_id, agg.share_count, agg.merkle_root, agg.epoch, agg.timestamp),
    )
}

impl AggregatedShare {
    /// Aggregates one miner's shares at `now` for `epoch`: counts them,
    /// takes the merkle root of their identifying hashes, and signs the
    /// commitment with the wallet. `Err` for no shares, for shares of
    /// different miners, or when the wallet cannot sign.
    pub fn aggregate(shares: &[Share], wallet: &Wallet, epoch: u32, now: Timestamp) -> (res: Result<Self, String>)
        ensures
            shares@.len() == 0 ==> (res matches Err(e) && e@ == "No shares to aggregate"@),
            shares@.len() > 0 && !all_from(shares@, shares@[0].miner_id) ==> (res matches Err(e)
                && e@ == "Shares from different miners"@),
            res is Ok <==> (shares@.len() > 0 && all_from(shares@, shares@[0].miner_id)
                && wallet.secret_key.len() == 32 && secp256k1_public_of(wallet.secret_key@) is Some),
            res matches Ok(agg) ==> {
                &&& agg.miner_id == shares@[0].miner_id
                &&& agg.share_count == shares@.len() as u32
                &&& agg.merkle_root@ == merkle_root_of(share_hashes_of(shares@))
                &&& agg.timestamp == now
                &&& agg.epoch == epoch
                &&& agg.signature@ == ecdsa_signature(
                    wallet.secret_key@,
                    aggregate_message(agg.miner_id, agg.share_count, agg.merkle_root, epoch, now),
                )
                &&& ecdsa_verifies(
                    secp256k1_public_of(wallet.secret_key@).unwrap(),
                    agg.signature@,
                    aggregate_message(agg.miner_id, agg.share_count, agg.merkle_root, epoch, now),
                )
                &&& aggregate_matches(agg, shares@)
            },
    {
        if shares.len() == 0 {
            proof {
                reveal_strlit("No shares to aggregate");
            }
            return Err("No shares to aggregate".to_string());
        }
        let miner_id = shares[0].miner_id;
        let mut i: usize = 0;
        while i < shares.len()
            invariant
                i <= shares@.len(),
                miner_id == shares@[0].miner_id,
                forall|j: int| 0 <= j < i ==> (#[trigger] shares@[j]).miner_id == miner_id,
            decreases shares@.len() - i,
        {
            if !arrays_equal(&shares[i].miner_id, &miner_id) {
                proof {
                    reveal_strlit("Shares from different miners");
                }
                return Err("Shares from different miners".to_string());
            }
            i = i + 1;
        }
        let share_count = shares.len() as u32;
        let merkle_root = Self::build_merkle_root(shares);
        let timestamp = now;
        let message = Self::build_message(&miner_id, share_count, &merkle_root, epoch, timestamp);
        let signature = match wallet.sign(&message) {
            Ok(s) => s,
            Err(e) => return Err(e),
        };
        Ok(AggregatedShare { miner_id, share_count, merkle_root, signature, timestamp, epoch })
    }

    /// The merkle root of the shares' identifying hashes.
    pub fn build_merkle_root(shares: &[Share]) -> (res: Hash32)
        requires
            shares@.len() > 0,
        ensures
            res@ == merkle_root_of(share_hashes_of(shares@)),
    {
        let mut hashes: Vec<Hash32> = Vec::new();
        let mut i: usize = 0;
        while i < shares.len()
            invariant
                i <= shares@.len(),
                hashes@.len() == i,
                forall|j: int| 0 <= j < i ==> (#[trigger] hashes@[j])@ == share_hash_of(shares@[j]),
            decreases shares@.len() - i,
        {
            let h = shares[i].share_hash();
            hashes.push(h);
            i = i + 1;
        }
        proof {
            assert(crate::merkle::hash_views(hashes@) =~= share_hashes_of(shares@));
        }
        merkle_root(hashes)
    }

    /// The digest the aggregate's signature covers.
    pub fn build_message(
        miner_id: &MinerId,
        share_count: u32,
        merkle_root: &Hash32,
        epoch: u32,
        timestamp: Timestamp,
    ) -> (res: Hash32)
        ensures
            res@ == aggregate_message(*miner_id, share_count, *merkle_root, epoch, timestamp),
    {
        let mut data: Vec<u8> = Vec::new();
        append_bytes(&mut data, miner_id.as_slice());
        append_u32_le(&mut data, share_count);
        append_bytes(&mut data, merkle_root.as_slice());
        append_u32_le(&mut data, epoch);
        append_u64_le(&mut data, timestamp);
        sha256(data.as_slice())
    }

    /// Whether the aggregate is accepted for the shares under the miner's
    /// compressed public key `public_key` (see `aggregate_valid`): count,
    /// miner, merkle root, the key's identity and the signature. It never
    /// fails.
    pub fn verify(&self, shares: &[Share], public_key: &[u8; 33]) -> (res: Result<bool, String>)
        requires
            shares@.len() as u32 == self.share_count ==> shares@.len() > 0,
        ensures
            res == Ok::<bool, String>(aggregate_valid(*self, shares@, public_key@)),
            res == Ok::<bool, String>(true) <==> {
                &&& shares@.len() > 0
                &&& shares@.len() as u32 == self.share_count
                &&& forall|i: int| 0 <= i < shares@.len() ==> (#[trigger] shares@[i]).miner_id == self.miner_id
                &&& self.merkle_root@ == merkle_root_of(shares@.map_values(|s: Share| share_hash_of(s)))
                &&& self.miner_id@ == miner_id_of(public_key@)
                &&& ecdsa_verifies(
                    public_key@,
                    self.signature@,
                    aggregate_message(self.miner_id, self.share_count, self.merkle_root, self.epoch, self.timestamp),
                )
            },
            res is Ok,
    {
        if shares.len() as u32 != self.share_count {
            return Ok(false);
        }
        let mut i: usize = 0;
        while i < shares.len()
            invariant
                i <= shares@.len(),
                forall|j: int| 0 <= j < i ==> (#[trigger] shares@[j]).miner_id == self.miner_id,
            decreases shares@.len() - i,
        {
            if !arrays_equal(&shares[i].miner_id, &self.miner_id) {
                return Ok(false);
            }
            i = i + 1;
        }
        let computed_root = Self::build_merkle_root(shares);
        if !arrays_equal(&computed_root, &self.merkle_root) {
            return Ok(false);
        }
        let key_id = Wallet::miner_id_from_pubkey(public_key);
        if !arrays_equal(&key_id, &self.miner_id) {
            return Ok(false);
        }
        let message = Self::build_message(
            &self.miner_id,
            self.share_count,
            &self.merkle_root,
            self.epoch,
            self.timestamp,
        );
        Ok(secp256k1_verify(public_key.as_slice(), self.signature.as_slice(), &message))
    }

    /// The size of the aggregate's encoding in bytes: the 20-byte miner
    /// identity, the count, the root, the signature, the timestamp, the epoch.
    pub fn size_bytes(&self) -> (res: usize)
        requires
            self.signature@.len() + 68 <= usize::MAX,
        ensures
            res == 20 + 4 + 32 + self.signature@.len() + 8 + 4,
    {
        20 + 4 + 32 + self.signature.len() + 8 + 4
    }

    /// A copy of the aggregate.
    pub fn duplicate(&self) -> (res: Self)
        ensures
            res.miner_id == self.miner_id,
            res.share_count == self.share_count,
            res.merkle_root == self.merkle_root,
            res.signature@ == self.signature@,
            res.timestamp == self.timestamp,
            res.epoch == self.epoch,
    {
        let mut signature: Vec<u8> = Vec::new();
        append_bytes(&mut signature, self.signature.as_slice());
        AggregatedShare {
            miner_id: self.miner_id,
            share_count: self.share_count,
            merkle_root: self.merkle_root,
            signature,
            timestamp: self.timestamp,
            epoch: self.epoch,
        }
    }
}

/// An aggregate that a well-formed wallet builds from its own non-empty
/// shares is accepted by `verify` on those same shares under the wallet's
/// public key: whatever `aggregate` returns in that case meets `verify`'s
/// precondition, and `verify` answers `Ok(true)` for it.
pub proof fn lemma_aggregate_then_verify(agg: AggregatedShare, shares: Seq<Share>, w: Wallet)
    requires
        w.wf(),
        shares.len() > 0,
        all_from(shares, w.miner_id),
        agg.miner_id == shares[0].miner_id,
        agg.share_count == shares.len() as u32,
        agg.merkle_root@ == merkle_root_of(share_hashes_of(shares)),
        ecdsa_verifies(
            secp256k1_public_of(w.secret_key@).unwrap(),
            agg.signature@,
            aggregate_message(agg.miner_id, agg.share_count, agg.merkle_root, agg.epoch, agg.timestamp),
        ),
    ensures
        shares.len() as u32 == agg.share_count ==> shares.len() > 0,
        aggregate_valid(agg, shares, w.public_key@),
{
    assert(shares[0].miner_id == w.miner_id);
}

} // verus!
