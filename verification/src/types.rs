//! Protocol constants and the plain types shared by every module.

use vstd::prelude::*;

verus! {

/// A 32-byte hash.
pub type Hash32 = [u8; 32];

/// A miner's identity: RIPEMD160(SHA256(compressed public key)).
pub type MinerId = [u8; 20];

/// Seconds since the Unix epoch.
pub type Timestamp = u64;

/// A block height.
pub type Height = u64;

/// A transaction id.
pub type Txid = [u8; 32];

/// A reference to a transaction output: the transaction id and the output's index.
pub type OutPoint = ([u8; 32], u32);

/// A peer's identity in the network.
pub type PeerId = [u8; 32];

/// Indivisible units (lyators) in one coin.
pub const LYATORS_PER_UNIT: u64 = 10_000_000;

/// Upper bound of the coin supply, in coins.
pub const MAX_SUPPLY_UNITS: u64 = 150_000_000;

/// Upper bound of the coin supply, in lyators.
pub const MAX_SUPPLY_LYT: u64 = 1_500_000_000_000_000;

/// Reward of the block finder, in lyators.
pub const BLOCK_REWARD_LYT: u64 = 500_000;

/// Reward shared among the miners of an epoch, in lyators.
pub const EPOCH_REWARD_LYT: u64 = 720_000_000;

/// Intended seconds between blocks.
pub const TARGET_BLOCK_TIME: u64 = 60;

/// Blocks in an epoch.
pub const EPOCH_BLOCKS: u64 = 1440;

/// Timestamp of the genesis block.
pub const GENESIS_TIMESTAMP: u64 = 1741353600;

/// Smallest fee a transaction may pay.
pub const MINIMUM_FEE_LYT: u64 = 50;

/// Outputs worth less than this are dust.
pub const DUST_LIMIT_LYT: u64 = 100;

/// Argon2id memory cost, in KiB.
pub const ARGON2_MEMORY_KB: u32 = 262_144;

/// Argon2id passes.
pub const ARGON2_ITERATIONS: u32 = 2;

/// Argon2id lanes.
pub const ARGON2_PARALLELISM: u32 = 4;

/// Argon2id output length in bytes.
pub const ARGON2_HASH_LEN: usize = 32;

/// Entries the Argon2id cache of a node holds.
pub const ARGON2_CACHE_SIZE: usize = 10000;

/// Smallest bond that counts for the contribution index, in lyators.
pub const MINIMUM_BOND_LYT: u64 = 10_000_000;

/// Blocks a bond stays locked.
pub const BOND_LOCKUP_BLOCKS: u64 = 20_160;

/// First byte of a bond output's script.
pub const OP_BOND: u8 = 0xBA;

/// Valid shares a miner may have in one epoch.
pub const MAX_SHARES_PER_MINER_PER_EPOCH: u64 = 5000;

/// How much easier a share target is than the block target.
pub const SHARE_DIFFICULTY_RATIO: u64 = 256;

/// How much easier the prefilter target is than the share target.
pub const SHARE_PREFILTER_RATIO: u64 = 65536;

/// Seconds a misbehaving miner is banned.
pub const PEER_BAN_DURATION_SECS: u64 = 300;

/// Blocks between difficulty adjustments.
pub const DIFFICULTY_ADJUSTMENT_INTERVAL: u64 = 120;

/// Intended seconds for one adjustment interval.
pub const TARGET_ADJUSTMENT_TIME: u64 = 7200;

/// Missed epochs decayed at the grace factor after a return.
pub const LOYALTY_GRACE_PERIOD: u32 = 3;

/// Largest number of connected peers.
pub const MAX_PEERS: usize = 125;

/// Seconds after which a sync session times out.
pub const SYNC_TIMEOUT_SECS: u64 = 60;

/// Seconds of silence after which a peer is stale.
pub const PEER_TIMEOUT_SECS: u64 = 300;

/// Messages a peer may send per hour.
pub const MAX_MESSAGES_PER_HOUR: u32 = 1000;

/// Largest number of blocks one request may ask for.
pub const MAX_BLOCKS_PER_REQUEST: u32 = 500;

/// Nonces tried in one mining round.
pub const MINING_BATCH_SIZE: u64 = 50000;

} // verus!
