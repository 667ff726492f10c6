//! The counts a node keeps about each miner: shares this epoch and in all,
//! bond, blocks found, rewards, and a temporary ban.

use vstd::prelude::*;

use crate::bond::Bond;
use crate::types::{MinerId, Timestamp, MAX_SHARES_PER_MINER_PER_EPOCH, MINIMUM_BOND_LYT};

verus! {

/// The integer record of a miner.
#[derive(Clone, Copy, Debug)]
pub struct MinerStats {
    pub miner_id: MinerId,
    pub shares: u64,
    pub bond: u64,
    pub last_epoch: u32,
    pub banned_until: Option<Timestamp>,
    pub last_share_time: Timestamp,
    pub total_shares_historical: u64,
    pub blocks_found: u64,
    pub total_rewards: u64,
    pub first_seen: Timestamp,
}

impl MinerStats {
    /// A miner first seen at `time` in `epoch` with a bond of `bond`.
    pub fn new(miner_id: MinerId, bond: u64, epoch: u32, time: Timestamp) -> (res: Self)
        ensures
            res == (MinerStats {
                miner_id,
                shares: 0,
                bond,
                last_epoch: epoch,
                banned_until: None,
                last_share_time: time,
                total_shares_historical: 0,
                blocks_found: 0,
                total_rewards: 0,
                first_seen: time,
            }),
    {
        MinerStats {
            miner_id,
            shares: 0,
            bond,
            last_epoch: epoch,
            banned_until: None,
            last_share_time: time,
            total_shares_historical: 0,
            blocks_found: 0,
            total_rewards: 0,
            first_seen: time,
        }
    }

    /// Whether a ban is running at `now`.
    pub fn is_banned(&self, now: Timestamp) -> (res: bool)
        ensures
            res == match self.banned_until {
                Some(until) => now < until,
                None => false,
            },
    {
        match self.banned_until {
            Some(until) => now < until,
            None => false,
        }
    }

    /// Bans the miner for `secs` seconds from `now`.
    pub fn ban_for(&mut self, now: Timestamp, secs: u64)
        requires
            now + secs <= u64::MAX,
        ensures
            *final(self) == (MinerStats { banned_until: Some((now + secs) as u64), ..*old(self) }),
    {
        self.banned_until = Some(now + secs);
    }

    /// Whether the miner may add a share this epoch.
    pub fn can_add_share(&self) -> (res: bool)
        ensures
            res == (self.shares < MAX_SHARES_PER_MINER_PER_EPOCH),
    {
        self.shares < MAX_SHARES_PER_MINER_PER_EPOCH
    }

    /// Counts a share made at `timestamp`.
    pub fn add_share(&mut self, timestamp: Timestamp)
        requires
            old(self).shares < u64::MAX,
            old(self).total_shares_historical < u64::MAX,
        ensures
            *final(self) == (MinerStats {
                shares: (old(self).shares + 1) as u64,
                total_shares_historical: (old(self).total_shares_historical + 1) as u64,
                last_share_time: timestamp,
                ..*old(self)
            }),
    {
        self.shares = self.shares + 1;
        self.total_shares_historical = self.total_shares_historical + 1;
        self.last_share_time = timestamp;
    }

    /// Counts a block found, with its reward.
    pub fn add_block(&mut self, reward: u64)
        requires
            old(self).blocks_found < u64::MAX,
            old(self).total_rewards + reward <= u64::MAX,
        ensures
            *final(self) == (MinerStats {
                blocks_found: (old(self).blocks_found + 1) as u64,
                total_rewards: (old(self).total_rewards + reward) as u64,
                ..*old(self)
            }),
    {
        self.blocks_found = self.blocks_found + 1;
        self.total_rewards = self.total_rewards + reward;
    }

    /// Starts a new epoch: the epoch's share count goes back to zero.
    pub fn reset_epoch_shares(&mut self)
        ensures
            *final(self) == (MinerStats { shares: 0, ..*old(self) }),
    {
        self.shares = 0;
    }
}

/// Whether a node takes up a miner's share at `now`: not while the miner's
/// record shows a running ban, and only when the miner has locked a bond of
/// at least the minimum stake.
pub fn admits_share(stats: Option<MinerStats>, bond: Option<Bond>, now: Timestamp) -> (res: bool)
    ensures
        res == ((match stats {
            Some(s) => !(s.banned_until matches Some(until) && now < until),
            None => true,
        }) && (match bond {
            Some(b) => b.amount >= MINIMUM_BOND_LYT,
            None => false,
        })),
{
    if let Some(s) = stats {
        if s.is_banned(now) {
            return false;
        }
    }
    match bond {
        Some(b) => b.amount >= MINIMUM_BOND_LYT,
        None => false,
    }
}

} // verus!
