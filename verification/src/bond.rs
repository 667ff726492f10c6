//! Bonds: collateral a miner locks for a fixed number of blocks.

use vstd::prelude::*;

use crate::tx::{is_bond_script, TxOut};
use crate::types::{Height, MinerId, BOND_LOCKUP_BLOCKS, MINIMUM_BOND_LYT};

verus! {

/// A bond of `amount` lyators, created at a height and locked until a later one.
#[derive(Clone, Copy, Debug)]
pub struct Bond {
    pub amount: u64,
    pub created_at: Height,
    pub lock_until: Height,
    pub miner_id: MinerId,
}

impl Bond {
    /// A bond created at `created_at`, locked for the lock-up period.
    pub fn new(amount: u64, created_at: Height, miner_id: MinerId) -> (res: Self)
        requires
            created_at + BOND_LOCKUP_BLOCKS <= u64::MAX,
        ensures
            res.amount == amount,
            res.created_at == created_at,
            res.lock_until == created_at + BOND_LOCKUP_BLOCKS,
            res.miner_id == miner_id,
    {
        Bond { amount, created_at, lock_until: created_at + BOND_LOCKUP_BLOCKS, miner_id }
    }

    /// Whether the lock-up has ended at `current_height`.
    pub fn is_active(&self, current_height: Height) -> (res: bool)
        ensures
            res == (current_height >= self.lock_until),
    {
        current_height >= self.lock_until
    }

    /// Whether the amount reaches the minimum that counts for the contribution index.
    pub fn is_valid_for_poci(&self) -> (res: bool)
        ensures
            res == (self.amount >= MINIMUM_BOND_LYT),
    {
        self.amount >= MINIMUM_BOND_LYT
    }

    /// The bond an output creates at `height`: a bond output worth at least the minimum.
    pub fn from_output(output: &TxOut, height: Height) -> (res: Option<Self>)
        requires
            height + BOND_LOCKUP_BLOCKS <= u64::MAX,
        ensures
            match res {
                Some(b) => is_bond_script(output.script_pubkey@) && output.value >= MINIMUM_BOND_LYT
                    && b.amount == output.value && b.created_at == height && b.lock_until == height
                    + BOND_LOCKUP_BLOCKS && b.miner_id@ == output.script_pubkey@.subrange(1, 21),
                None => !is_bond_script(output.script_pubkey@) || output.value < MINIMUM_BOND_LYT,
            },
    {
        if let Some(miner_id) = output.extract_miner_id() {
            if output.value >= MINIMUM_BOND_LYT {
                Some(Self::new(output.value, height, miner_id))
            } else {
                None
            }
        } else {
            None
        }
    }

    /// Blocks left until the lock-up ends at `current_height` (zero once it has).
    pub fn remaining_blocks(&self, current_height: Height) -> (res: u64)
        ensures
            res == if current_height < self.lock_until {
                self.lock_until - current_height
            } else {
                0
            },
    {
        if current_height < self.lock_until {
            self.lock_until - current_height
        } else {
            0
        }
    }
}

/// The bond a node records when a miner stakes `amount` at `height`: none
/// below the minimum bond, else a new bond locked for the lock-up period.
pub fn bond_for(amount: u64, height: Height, miner_id: MinerId) -> (res: Option<Bond>)
    requires
        height + BOND_LOCKUP_BLOCKS <= u64::MAX,
    ensures
        amount < MINIMUM_BOND_LYT ==> res is None,
        amount >= MINIMUM_BOND_LYT ==> res == Some(
            Bond { amount, created_at: height, lock_until: (height + BOND_LOCKUP_BLOCKS) as u64, miner_id },
        ),
{
    if amount < MINIMUM_BOND_LYT {
        return None;
    }
    Some(Bond::new(amount, height, miner_id))
}

/// The bond of a miner after a deposit of `amount` at `height` onto its
/// bond `existing`, if any: deposits accumulate. A deposit below the
/// minimum stake makes no bond and changes none (`None`). Otherwise the
/// amounts add up, the bond keeps the height it was first created at, and
/// it stays locked until the lock-up of the new deposit ends, or later when
/// the earlier lock-up ends later.
pub fn deposit_bond(existing: Option<Bond>, amount: u64, height: Height, miner_id: MinerId) -> (res:
    Option<Bond>)
    requires
        height + BOND_LOCKUP_BLOCKS <= u64::MAX,
        existing matches Some(b) ==> b.amount + amount <= u64::MAX,
    ensures
        amount < MINIMUM_BOND_LYT ==> res is None,
        amount >= MINIMUM_BOND_LYT ==> res == Some(
            match existing {
                None => Bond {
                    amount,
                    created_at: height,
                    lock_until: (height + BOND_LOCKUP_BLOCKS) as u64,
                    miner_id,
                },
                Some(b) => Bond {
                    amount: (b.amount + amount) as u64,
                    created_at: b.created_at,
                    lock_until: if b.lock_until > height + BOND_LOCKUP_BLOCKS {
                        b.lock_until
                    } else {
                        (height + BOND_LOCKUP_BLOCKS) as u64
                    },
                    miner_id,
                },
            },
        ),
{
    let fresh = match bond_for(amount, height, miner_id) {
        Some(f) => f,
        None => return None,
    };
    match existing {
        None => Some(fresh),
        Some(b) => {
            let lock_until = if b.lock_until > fresh.lock_until {
                b.lock_until
            } else {
                fresh.lock_until
            };
            Some(Bond { amount: b.amount + amount, created_at: b.created_at, lock_until, miner_id })
        },
    }
}

/// A bond has no blocks left exactly when it is active, and before that the
/// blocks left and the current height add up to the end of the lock-up.
pub proof fn lemma_bond_remaining_and_active(b: Bond, h: Height)
    ensures
        (if h < b.lock_until {
            (b.lock_until - h) as u64
        } else {
            0u64
        }) == 0 <==> h >= b.lock_until,
        h < b.lock_until ==> (b.lock_until - h) + h == b.lock_until,
{
}

/// A new bond is locked for exactly the lock-up period from its creation.
pub proof fn lemma_new_bond_lockup(amount: u64, created_at: Height, miner_id: MinerId)
    requires
        created_at + BOND_LOCKUP_BLOCKS <= u64::MAX,
    ensures
        ({
            let b = Bond { amount, created_at, lock_until: (created_at + BOND_LOCKUP_BLOCKS) as u64, miner_id };
            &&& b.lock_until - b.created_at == BOND_LOCKUP_BLOCKS
            &&& b.created_at < b.lock_until
        }),
{
}

} // verus!
