//! The pool of shares a node accepts during one epoch: each miner's valid
//! shares in arrival order, the identifying hashes of the stored shares,
//! each miner's counts of submitted and of invalid shares, and the memory
//! the stored shares take, kept under a bound by evicting the oldest share
//! of the miner that holds the most.

use vstd::prelude::*;

use crate::encoding::arrays_equal;
use crate::merkle::{
    all_32_bytes, ascending_of, hash_views, lemma_sorted_is_ascending_of, merkle_root,
    merkle_root_of, seq_set, sort_hashes,
};
use crate::share::{share_hash_of, Share};
use crate::types::{Hash32, MinerId, Timestamp, MAX_SHARES_PER_MINER_PER_EPOCH};

verus! {

/// What the pool holds for one miner: its stored shares in arrival order,
/// whether it is listed among the miners with accepted shares, and its
/// counts of invalid and of submitted shares.
pub struct MinerTally {
    pub miner_id: MinerId,
    pub shares: Seq<Share>,
    pub listed: bool,
    pub invalid: u64,
    pub total: u64,
}

/// The tally of a miner the pool has not seen.
pub open spec fn empty_tally(m: MinerId) -> MinerTally {
    MinerTally { miner_id: m, shares: Seq::empty(), listed: false, invalid: 0, total: 0 }
}

/// The tally of `m` in `ts`, or an empty one.
pub open spec fn tally_of(ts: Seq<MinerTally>, m: MinerId) -> MinerTally {
    if exists|i: int| 0 <= i < ts.len() && (#[trigger] ts[i]).miner_id == m {
        ts[choose|i: int| 0 <= i < ts.len() && (#[trigger] ts[i]).miner_id == m]
    } else {
        empty_tally(m)
    }
}

/// `ts` with `t` in place of the tally of the same miner, or appended.
pub open spec fn put_tally(ts: Seq<MinerTally>, t: MinerTally) -> Seq<MinerTally> {
    if exists|i: int| 0 <= i < ts.len() && (#[trigger] ts[i]).miner_id == t.miner_id {
        ts.update(choose|i: int| 0 <= i < ts.len() && (#[trigger] ts[i]).miner_id == t.miner_id, t)
    } else {
        ts.push(t)
    }
}

/// No two tallies belong to the same miner.
pub open spec fn distinct_tallies(ts: Seq<MinerTally>) -> bool {
    forall|i: int, j: int|
        0 <= i < j < ts.len() ==> (#[trigger] ts[i]).miner_id != (#[trigger] ts[j]).miner_id
}

/// The number of shares stored over all tallies.
pub open spec fn stored_count(ts: Seq<MinerTally>) -> nat
    decreases ts.len(),
{
    if ts.len() == 0 {
        0
    } else {
        stored_count(ts.drop_last()) + ts.last().shares.len()
    }
}

/// Tally `i` stores the most shares, more than any tally before it, and at
/// least one.
pub open spec fn is_fullest(ts: Seq<MinerTally>, i: int) -> bool {
    &&& 0 <= i < ts.len()
    &&& ts[i].shares.len() > 0
    &&& forall|j: int| 0 <= j < i ==> (#[trigger] ts[j]).shares.len() < ts[i].shares.len()
    &&& forall|j: int| 0 <= j < ts.len() ==> (#[trigger] ts[j]).shares.len() <= ts[i].shares.len()
}

/// Some tally stores a share.
pub open spec fn has_fullest(ts: Seq<MinerTally>) -> bool {
    exists|i: int| is_fullest(ts, i)
}

/// The first tally that stores the most shares.
pub open spec fn fullest_index(ts: Seq<MinerTally>) -> int {
    choose|i: int| is_fullest(ts, i)
}

/// The tallies after evicting the oldest share of the fullest tally.
pub open spec fn evicted(ts: Seq<MinerTally>) -> Seq<MinerTally> {
    if has_fullest(ts) {
        let i = fullest_index(ts);
        ts.update(i, MinerTally { shares: ts[i].shares.drop_first(), ..ts[i] })
    } else {
        ts
    }
}

/// The stored hashes after that eviction.
pub open spec fn evicted_hashes(ts: Seq<MinerTally>, hs: Set<Seq<u8>>) -> Set<Seq<u8>> {
    if has_fullest(ts) {
        hs.remove(share_hash_of(ts[fullest_index(ts)].shares[0]))
    } else {
        hs
    }
}

/// The memory the stored shares of `ts` take.
pub open spec fn memory_for(ts: Seq<MinerTally>) -> int {
    (stored_count(ts) * vstd::layout::size_of::<Share>()) as int
}

/// The shares each tally stores.
pub open spec fn shares_of(ts: Seq<MinerTally>) -> Seq<Seq<Share>> {
    ts.map_values(|t: MinerTally| t.shares)
}

/// The identifying hashes of the stored shares.
pub open spec fn stored_hashes(ss: Seq<Seq<Share>>) -> Set<Seq<u8>> {
    Set::new(
        |v: Seq<u8>|
            exists|i: int, k: int|
                0 <= i < ss.len() && 0 <= k < ss[i].len() && #[trigger] share_hash_of(ss[i][k]) == v,
    )
}

/// No two stored shares have the same identifying hash.
pub open spec fn distinct_stored(ss: Seq<Seq<Share>>) -> bool {
    forall|i: int, k: int, j: int, l: int|
        0 <= i < ss.len() && 0 <= k < ss[i].len() && 0 <= j < ss.len() && 0 <= l < ss[j].len() && (i
            != j || k != l) ==> share_hash_of(#[trigger] ss[i][k]) != share_hash_of(#[trigger] ss[j][l])
}

/// The set of views of a sequence of hashes.
pub open spec fn hash_set(hs: Seq<Hash32>) -> Set<Seq<u8>> {
    Set::new(|v: Seq<u8>| exists|k: int| 0 <= k < hs.len() && (#[trigger] hs[k])@ == v)
}

/// The outcome of offering `share` to a pool with tallies `ts`, hashes
/// `hs`, `memory` used of `limit`, in `epoch`: the result, then the
/// tallies, hashes and memory after it. A share of another epoch is
/// refused; a known one is ignored; any other counts as submitted, and an
/// invalid one also as invalid. A valid one whose miner already stores the
/// most shares allowed is refused, with no share, hash or memory changed;
/// otherwise room is made for it by one eviction when it would not fit, and
/// it is stored.
pub open spec fn add_outcome(
    ts: Seq<MinerTally>,
    hs: Set<Seq<u8>>,
    memory: int,
    limit: int,
    epoch: u32,
    share: Share,
    is_valid: bool,
) -> (Result<bool, Seq<char>>, Seq<MinerTally>, Set<Seq<u8>>, int) {
    let m = share.miner_id;
    let h = share_hash_of(share);
    let size = vstd::layout::size_of::<Share>();
    if share.header.epoch_index != epoch {
        (Err("Wrong epoch"@), ts, hs, memory)
    } else if hs.contains(h) {
        (Ok(false), ts, hs, memory)
    } else {
        let t = tally_of(ts, m);
        let counted = MinerTally { total: (t.total + 1) as u64, ..t };
        if !is_valid {
            (Ok(false), put_tally(ts, MinerTally { invalid: (t.invalid + 1) as u64, ..counted }), hs, memory)
        } else {
            let ts1 = put_tally(ts, counted);
            if t.shares.len() >= MAX_SHARES_PER_MINER_PER_EPOCH {
                (Err("Max shares per miner exceeded"@), ts1, hs, memory)
            } else {
                let evict = memory + size > limit;
                let ts2 = if evict { evicted(ts1) } else { ts1 };
                let hs2 = if evict { evicted_hashes(ts1, hs) } else { hs };
                let mem2 = if evict && has_fullest(ts1) { memory - size } else { memory };
                let t2 = tally_of(ts2, m);
                (
                    Ok(true),
                    put_tally(ts2, MinerTally { shares: t2.shares.push(share), listed: true, ..t2 }),
                    hs2.insert(h),
                    mem2 + size,
                )
            }
        }
    }
}

/// The listed miners, in the order of their tallies.
pub open spec fn listed_miners(ts: Seq<MinerTally>) -> Seq<MinerId>
    decreases ts.len(),
{
    if ts.len() == 0 {
        Seq::empty()
    } else if ts.last().listed {
        listed_miners(ts.drop_last()).push(ts.last().miner_id)
    } else {
        listed_miners(ts.drop_last())
    }
}

struct MinerRecord {
    miner_id: MinerId,
    shares: Vec<Share>,
    listed: bool,
    invalid: u64,
    total: u64,
}

impl MinerRecord {
    spec fn tally(self) -> MinerTally {
        MinerTally {
            miner_id: self.miner_id,
            shares: self.shares@,
            listed: self.listed,
            invalid: self.invalid,
            total: self.total,
        }
    }
}

spec fn tallies_of(rs: Seq<MinerRecord>) -> Seq<MinerTally> {
    rs.map_values(|r: MinerRecord| r.tally())
}

/// The shares accepted in the current epoch.
pub struct SharePool {
    records: Vec<MinerRecord>,
    share_hashes: Vec<Hash32>,
    current_epoch: u32,
    max_memory_bytes: usize,
    memory_used: usize,
    created_at: Timestamp,
}

impl SharePool {
    /// The tallies, one per miner seen this epoch, in the order first seen.
    pub closed spec fn tallies(&self) -> Seq<MinerTally> {
        tallies_of(self.records@)
    }

    /// The identifying hashes of the stored shares.
    pub closed spec fn hashes(&self) -> Set<Seq<u8>> {
        hash_set(self.share_hashes@)
    }

    /// The epoch whose shares are accepted.
    pub closed spec fn epoch(&self) -> u32 {
        self.current_epoch
    }

    /// The memory bound, in bytes.
    pub closed spec fn memory_limit(&self) -> usize {
        self.max_memory_bytes
    }

    /// The memory the stored shares take, in bytes.
    pub closed spec fn memory(&self) -> usize {
        self.memory_used
    }

    /// When the epoch's pool was started.
    pub closed spec fn created(&self) -> Timestamp {
        self.created_at
    }

    /// The pool's invariant: one tally per miner, each storing only shares
    /// of its miner and of the current epoch, at most the allowed number,
    /// only listed tallies storing any, no more invalid than submitted
    /// shares; distinct recorded hashes, which are exactly those of the
    /// stored shares, no two alike; the memory count matches the shares and
    /// stays within the limit (or within one share, for a limit below the
    /// size of one share).
    pub closed spec fn wf(&self) -> bool {
        let ts = self.tallies();
        &&& distinct_tallies(ts)
        &&& forall|i: int| 0 <= i < ts.len() ==> {
            &&& (#[trigger] ts[i]).shares.len() <= MAX_SHARES_PER_MINER_PER_EPOCH
            &&& ts[i].invalid <= ts[i].total
            &&& (!ts[i].listed ==> ts[i].shares.len() == 0)
            &&& forall|k: int| 0 <= k < ts[i].shares.len() ==> {
                &&& (#[trigger] ts[i].shares[k]).miner_id == ts[i].miner_id
                &&& ts[i].shares[k].header.epoch_index == self.current_epoch
            }
        }
        &&& forall|a: int, b: int|
            0 <= a < b < self.share_hashes@.len() ==> (#[trigger] self.share_hashes@[a])@
                != (#[trigger] self.share_hashes@[b])@
        &&& self.memory_used as int == memory_for(ts)
        &&& distinct_stored(shares_of(ts))
        &&& hash_set(self.share_hashes@) == stored_hashes(shares_of(ts))
        &&& (self.memory_used <= self.max_memory_bytes || self.memory_used as int
            <= vstd::layout::size_of::<Share>())
    }

    /// An empty pool for epoch 1 bounded by `max_memory_mb` mebibytes,
    /// started at `now`.
    pub fn new(max_memory_mb: usize, now: Timestamp) -> (res: Self)
        requires
            max_memory_mb * 1048576 <= usize::MAX,
        ensures
            res.wf(),
            res.tallies().len() == 0,
            res.hashes() == Set::<Seq<u8>>::empty(),
            res.epoch() == 1,
            res.memory_limit() == max_memory_mb * 1048576,
            res.memory() == 0,
            res.created() == now,
    {
        let r = SharePool {
            records: Vec::new(),
            share_hashes: Vec::new(),
            current_epoch: 1,
            max_memory_bytes: max_memory_mb * 1024 * 1024,
            memory_used: 0,
            created_at: now,
        };
        proof {
            assert(r.tallies() =~= Seq::<MinerTally>::empty());
            assert(r.hashes() =~= Set::<Seq<u8>>::empty());
            assert(stored_count(r.tallies()) == 0);
            assert(memory_for(r.tallies()) == 0);
            assert(shares_of(r.tallies()) =~= Seq::<Seq<Share>>::empty());
            assert(stored_hashes(shares_of(r.tallies())) =~= Set::<Seq<u8>>::empty());
        }
        r
    }

    /// Whether the hash of a stored share equals `h`.
    fn contains_hash(&self, h: &Hash32) -> (res: bool)
        ensures
            res == self.hashes().contains(h@),
    {
        let mut k: usize = 0;
        while k < self.share_hashes.len()
            invariant
                k <= self.share_hashes@.len(),
                forall|j: int| 0 <= j < k ==> (#[trigger] self.share_hashes@[j])@ != h@,
            decreases self.share_hashes@.len() - k,
        {
            if arrays_equal(&self.share_hashes[k], h) {
                proof {
                    assert(hash_set(self.share_hashes@).contains(h@));
                }
                return true;
            }
            k = k + 1;
        }
        false
    }

    /// The index of `m`'s record, if any.
    fn find_record(&self, m: &MinerId) -> (res: Option<usize>)
        requires
            self.wf(),
        ensures
            match res {
                Some(i) => i < self.tallies().len() && self.tallies()[i as int].miner_id == *m
                    && tally_of(self.tallies(), *m) == self.tallies()[i as int],
                None => tally_of(self.tallies(), *m) == empty_tally(*m) && forall|j: int|
                    0 <= j < self.tallies().len() ==> (#[trigger] self.tallies()[j]).miner_id != *m,
            },
    {
        let mut i: usize = 0;
        while i < self.records.len()
            invariant
                self.wf(),
                i <= self.records@.len(),
                forall|j: int| 0 <= j < i ==> (#[trigger] self.records@[j]).miner_id != *m,
            decreases self.records@.len() - i,
        {
            if arrays_equal(&self.records[i].miner_id, m) {
                proof {
                    lemma_tally_at(self.tallies(), i as int);
                }
                return Some(i);
            }
            i = i + 1;
        }
        proof {
            let ts = self.tallies();
            assert(forall|j: int| 0 <= j < ts.len() ==> (#[trigger] ts[j]).miner_id == self.records@[j].miner_id);
        }
        None
    }

    /// The index of `m`'s record, adding an empty one when there is none.
    fn record_index(&mut self, m: MinerId) -> (i: usize)
        requires
            old(self).wf(),
        ensures
            final(self).wf(),
            i < final(self).tallies().len(),
            final(self).tallies()[i as int].miner_id == m,
            final(self).tallies() == put_tally(old(self).tallies(), tally_of(old(self).tallies(), m)),
            final(self).tallies()[i as int] == tally_of(old(self).tallies(), m),
            final(self).hashes() == old(self).hashes(),
            final(self).share_hashes@ == old(self).share_hashes@,
            final(self).epoch() == old(self).epoch(),
            final(self).memory_limit() == old(self).memory_limit(),
            final(self).memory() == old(self).memory(),
            final(self).created() == old(self).created(),
    {
        match self.find_record(&m) {
            Some(i) => {
                proof {
                    lemma_put_at(self.tallies(), i as int, tally_of(self.tallies(), m));
                }
                i
            },
            None => {
                let ghost ts = self.tallies();
                self.records.push(MinerRecord { miner_id: m, shares: Vec::new(), listed: false, invalid: 0, total: 0 });
                proof {
                    let last = self.records@.last();
                    assert(last.shares@ =~= Seq::<Share>::empty());
                    assert(last.tally() == empty_tally(m));
                    assert(self.tallies() =~= ts.push(empty_tally(m)));
                    assert(!(exists|j: int| 0 <= j < ts.len() && (#[trigger] ts[j]).miner_id == m));
                    lemma_stored_push(ts, empty_tally(m));
                    assert(shares_of(self.tallies()) =~= shares_of(ts).push(Seq::<Share>::empty()));
                    lemma_stored_push_empty(shares_of(ts));
                }
                self.records.len() - 1
            },
        }
    }

    /// Evicts the oldest share of the miner storing the most shares (the
    /// first such miner), with its hash and memory; nothing when no share
    /// is stored.
    pub fn evict_oldest(&mut self)
        requires
            old(self).wf(),
        ensures
            final(self).wf(),
            final(self).tallies() == evicted(old(self).tallies()),
            final(self).hashes() == evicted_hashes(old(self).tallies(), old(self).hashes()),
            final(self).memory() == if has_fullest(old(self).tallies()) {
                old(self).memory() - vstd::layout::size_of::<Share>()
            } else {
                old(self).memory() as int
            },
            !has_fullest(old(self).tallies()) ==> old(self).memory() == 0,
            (forall|j: int| 0 <= j < old(self).tallies().len() ==> (#[trigger] old(self).tallies()[j]).shares.len()
                == 0) ==> final(self).tallies() == old(self).tallies() && final(self).hashes() == old(self).hashes(),
            (exists|j: int| 0 <= j < old(self).tallies().len() && (#[trigger] old(self).tallies()[j]).shares.len()
                > 0) ==> exists|i: int| #![trigger old(self).tallies()[i]] {
                let ts = old(self).tallies();
                &&& 0 <= i < ts.len()
                &&& ts[i].shares.len() > 0
                &&& forall|j: int| 0 <= j < ts.len() ==> (#[trigger] ts[j]).shares.len() <= ts[i].shares.len()
                &&& forall|j: int| 0 <= j < i ==> (#[trigger] ts[j]).shares.len() < ts[i].shares.len()
                &&& final(self).tallies() == ts.update(i, MinerTally { shares: ts[i].shares.drop_first(), ..ts[i] })
                &&& final(self).hashes() == old(self).hashes().remove(share_hash_of(ts[i].shares[0]))
                &&& final(self).memory() == old(self).memory() - vstd::layout::size_of::<Share>()
            },
            final(self).epoch() == old(self).epoch(),
            final(self).memory_limit() == old(self).memory_limit(),
            final(self).created() == old(self).created(),
    {
        let ghost ts = self.tallies();
        let mut best: usize = 0;
        let mut best_len: usize = 0;
        let mut i: usize = 0;
        while i < self.records.len()
            invariant
                self.wf(),
                ts == self.tallies(),
                i <= ts.len(),
                best_len == 0 ==> forall|j: int| 0 <= j < i ==> (#[trigger] ts[j]).shares.len() == 0,
                best_len > 0 ==> {
                    &&& best < i
                    &&& ts[best as int].shares.len() == best_len
                    &&& forall|j: int| 0 <= j < best ==> (#[trigger] ts[j]).shares.len() < best_len
                    &&& forall|j: int| 0 <= j < i ==> (#[trigger] ts[j]).shares.len() <= best_len
                },
            decreases ts.len() - i,
        {
            let n = self.records[i].shares.len();
            proof {
                assert(ts[i as int] == self.records@[i as int].tally());
            }
            if n > best_len {
                best = i;
                best_len = n;
            }
            i = i + 1;
        }
        if best_len == 0 {
            proof {
                assert(!has_fullest(ts));
                lemma_stored_zero(ts);
                assert(stored_count(ts) == 0);
                assert(stored_count(ts) * vstd::layout::size_of::<Share>() == 0) by (nonlinear_arith)
                    requires
                        stored_count(ts) == 0,
                ;
                assert(memory_for(ts) == 0);
                assert(evicted(ts) == ts);
            }
            return;
        }
        proof {
            assert(is_fullest(ts, best as int));
            lemma_fullest_unique(ts, best as int);
            lemma_stored_at_least(ts, best as int);
        }
        let oldest = self.records[best].shares[0];
        let h = oldest.share_hash();
        proof {
            assert(ts[best as int] == self.records@[best as int].tally());
            assert(oldest == ts[best as int].shares[0]);
        }
        let ghost old_hashes = self.share_hashes@;
        let mut k: usize = 0;
        while k < self.share_hashes.len()
            invariant
                old_hashes == self.share_hashes@,
                k <= old_hashes.len(),
                forall|j: int| 0 <= j < k ==> (#[trigger] old_hashes[j])@ != h@,
            ensures
                k <= old_hashes.len(),
                forall|j: int| 0 <= j < k ==> (#[trigger] old_hashes[j])@ != h@,
                k < old_hashes.len() ==> old_hashes[k as int]@ == h@,
            decreases old_hashes.len() - k,
        {
            if arrays_equal(&self.share_hashes[k], &h) {
                break;
            }
            k = k + 1;
        }
        if k < self.share_hashes.len() {
            self.share_hashes.remove(k);
            proof {
                lemma_hash_set_remove(old_hashes, k as int);
            }
        } else {
            proof {
                assert(!hash_set(old_hashes).contains(h@));
                assert(shares_of(ts)[best as int][0] == oldest);
                assert(share_hash_of(shares_of(ts)[best as int][0]) == h@);
                assert(stored_hashes(shares_of(ts)).contains(h@));
                assert(false);
            }
        }
        self.records[best].shares.remove(0);
        let size = core::mem::size_of::<Share>();
        proof {
            let t = ts[best as int];
            let t2 = MinerTally { shares: t.shares.drop_first(), ..t };
            assert(self.tallies() =~= ts.update(best as int, t2));
            lemma_stored_update(ts, best as int, t2);
            assert(shares_of(self.tallies()) =~= shares_of(ts).update(best as int, shares_of(ts)[best as int].drop_first()));
            lemma_stored_drop_first(shares_of(ts), best as int);
            let n = stored_count(ts);
            let sz = vstd::layout::size_of::<Share>();
            assert(n >= 1);
            assert(n * sz >= sz) by (nonlinear_arith)
                requires
                    n >= 1;
            assert((n - 1) * sz == n * sz - sz) by (nonlinear_arith);
        }
        self.memory_used = self.memory_used - size;
    }

    /// Offers a share, valid or not as the caller found, to the pool: the
    /// result and the pool after it are those of `add_outcome`.
    pub fn add_share(&mut self, share: Share, is_valid: bool) -> (res: Result<bool, &'static str>)
        requires
            old(self).wf(),
            tally_of(old(self).tallies(), share.miner_id).total < u64::MAX,
        ensures
            final(self).wf(),
            ({
                let out = add_outcome(
                    old(self).tallies(),
                    old(self).hashes(),
                    old(self).memory() as int,
                    old(self).memory_limit() as int,
                    old(self).epoch(),
                    share,
                    is_valid,
                );
                &&& match res {
                    Ok(b) => out.0 == Ok::<bool, Seq<char>>(b),
                    Err(e) => out.0 == Err::<bool, Seq<char>>(e@),
                }
                &&& final(self).tallies() == out.1
                &&& final(self).hashes() == out.2
                &&& final(self).memory() == out.3
            }),
            final(self).epoch() == old(self).epoch(),
            final(self).memory_limit() == old(self).memory_limit(),
            final(self).created() == old(self).created(),
            ({
                let m = share.miner_id;
                let t = tally_of(old(self).tallies(), m);
                let n = tally_of(final(self).tallies(), m);
                let h = share_hash_of(share);
                let fresh = share.header.epoch_index == old(self).epoch() && !old(self).hashes().contains(h);
                &&& share.header.epoch_index != old(self).epoch() ==> {
                    &&& res matches Err(e) && e@ == "Wrong epoch"@
                    &&& final(self).tallies() == old(self).tallies()
                    &&& final(self).hashes() == old(self).hashes()
                    &&& final(self).memory() == old(self).memory()
                }
                &&& share.header.epoch_index == old(self).epoch() && old(self).hashes().contains(h) ==> {
                    &&& res == Ok::<bool, &'static str>(false)
                    &&& final(self).tallies() == old(self).tallies()
                    &&& final(self).hashes() == old(self).hashes()
                    &&& final(self).memory() == old(self).memory()
                }
                &&& fresh ==> n.total == t.total + 1
                &&& fresh && !is_valid ==> {
                    &&& res == Ok::<bool, &'static str>(false)
                    &&& n.invalid == t.invalid + 1
                    &&& n.shares == t.shares
                    &&& final(self).hashes() == old(self).hashes()
                    &&& final(self).memory() == old(self).memory()
                }
                &&& fresh && is_valid ==> (res == Ok::<bool, &'static str>(true) <==> t.shares.len()
                    < MAX_SHARES_PER_MINER_PER_EPOCH)
                &&& fresh && is_valid && res != Ok::<bool, &'static str>(true) ==> {
                    &&& final(self).hashes() == old(self).hashes()
                    &&& final(self).memory() == old(self).memory()
                    &&& n.shares == t.shares
                }
                &&& res == Ok::<bool, &'static str>(true) ==> {
                    &&& final(self).hashes().contains(h)
                    &&& n.shares.len() > 0
                    &&& n.shares.last() == share
                }
            }),
    {
        proof {
            let ts = self.tallies();
            let m = share.miner_id;
            if exists|i: int| 0 <= i < ts.len() && (#[trigger] ts[i]).miner_id == m {
                let c = choose|i: int| 0 <= i < ts.len() && (#[trigger] ts[i]).miner_id == m;
                assert(tally_of(ts, m) == ts[c]);
            }
            lemma_add_outcome_effects(
                self.tallies(),
                self.hashes(),
                self.memory() as int,
                self.memory_limit() as int,
                self.epoch(),
                share,
                is_valid,
            );
            reveal_strlit("Wrong epoch");
        }
        self.offer_share(share, is_valid)
    }

    fn offer_share(&mut self, share: Share, is_valid: bool) -> (res: Result<bool, &'static str>)
        requires
            old(self).wf(),
            tally_of(old(self).tallies(), share.miner_id).total < u64::MAX,
        ensures
            final(self).wf(),
            ({
                let out = add_outcome(
                    old(self).tallies(),
                    old(self).hashes(),
                    old(self).memory() as int,
                    old(self).memory_limit() as int,
                    old(self).epoch(),
                    share,
                    is_valid,
                );
                &&& match res {
                    Ok(b) => out.0 == Ok::<bool, Seq<char>>(b),
                    Err(e) => out.0 == Err::<bool, Seq<char>>(e@),
                }
                &&& final(self).tallies() == out.1
                &&& final(self).hashes() == out.2
                &&& final(self).memory() == out.3
            }),
            final(self).epoch() == old(self).epoch(),
            final(self).memory_limit() == old(self).memory_limit(),
            final(self).created() == old(self).created(),
    {
        let m = share.miner_id;
        let h = share.share_hash();
        if share.header.epoch_index != self.current_epoch {
            proof {
                reveal_strlit("Wrong epoch");
            }
            return Err("Wrong epoch");
        }
        if self.contains_hash(&h) {
            return Ok(false);
        }
        let ghost ts0 = self.tallies();
        let ghost hs0 = self.hashes();
        let ghost mem0 = self.memory() as int;
        let ghost t = tally_of(ts0, m);
        let i = self.record_index(m);
        let ghost ts_mid = self.tallies();
        let ghost counted = MinerTally { total: (t.total + 1) as u64, ..t };
        proof {
            assert(ts_mid[i as int] == self.records@[i as int].tally());
        }
        self.records[i].total = self.records[i].total + 1;
        proof {
            lemma_put_twice(ts0, m, i as int, counted);
            assert(self.records@[i as int].tally() == counted);
            assert(self.tallies() =~= ts_mid.update(i as int, counted));
            lemma_stored_update(ts_mid, i as int, counted);
            lemma_put_at(ts_mid, i as int, counted);
            lemma_stored_same(shares_of(ts_mid), shares_of(self.tallies()));
        }
        if !is_valid {
            let ghost marked = MinerTally { invalid: (t.invalid + 1) as u64, ..counted };
            self.records[i].invalid = self.records[i].invalid + 1;
            proof {
                lemma_put_twice(ts0, m, i as int, marked);
                assert(self.records@[i as int].tally() == marked);
                assert(self.tallies() =~= ts_mid.update(i as int, marked));
                lemma_stored_update(ts_mid, i as int, marked);
                lemma_put_at(ts_mid, i as int, marked);
                lemma_stored_same(shares_of(ts_mid), shares_of(self.tallies()));
            }
            return Ok(false);
        }
        let ghost ts1 = self.tallies();
        proof {
            assert(ts1[i as int] == self.records@[i as int].tally());
            assert(ts1[i as int].shares == t.shares);
        }
        if self.records[i].shares.len() >= 5000 {
            proof {
                reveal_strlit("Max shares per miner exceeded");
            }
            return Err("Max shares per miner exceeded");
        }
        let share_size = core::mem::size_of::<Share>();
        if share_size > self.max_memory_bytes || self.memory_used > self.max_memory_bytes - share_size {
            self.evict_oldest();
        }
        let ghost ts2 = self.tallies();
        proof {
            assert(ts2.len() == ts1.len());
            assert(ts2[i as int].miner_id == m);
            lemma_tally_at(ts2, i as int);
            assert(ts2[i as int] == self.records@[i as int].tally());
            assert(ts2[i as int].shares.len() <= ts1[i as int].shares.len());
        }
        let ghost t2 = ts2[i as int];
        let ghost grown = MinerTally { shares: t2.shares.push(share), listed: true, ..t2 };
        let ghost old_hashes = self.share_hashes@;
        self.records[i].shares.push(share);
        self.records[i].listed = true;
        self.share_hashes.push(h);
        proof {
            assert(self.records@[i as int].tally() == grown);
            assert(self.tallies() =~= ts2.update(i as int, grown));
            lemma_put_at(ts2, i as int, grown);
            lemma_stored_update(ts2, i as int, grown);
            lemma_hash_set_push(old_hashes, h);
            assert(!hash_set(old_hashes).contains(h@));
            assert(shares_of(self.tallies()) =~= shares_of(ts2).update(i as int, shares_of(ts2)[i as int].push(share)));
            lemma_stored_grow(shares_of(ts2), i as int, share);
            let p = self.share_hashes@;
            assert forall|a: int, b: int| 0 <= a < b < p.len() implies (#[trigger] p[a])@ != (
            #[trigger] p[b])@ by {
                assert(p[a] == old_hashes[a]);
                if b < old_hashes.len() {
                    assert(p[b] == old_hashes[b]);
                } else {
                    assert(p[b] == h);
                    if p[a]@ == h@ {
                        assert(hash_set(old_hashes).contains(h@));
                    }
                }
            }
            let nts = self.tallies();
            assert forall|j: int| 0 <= j < nts.len() implies {
                &&& (#[trigger] nts[j]).shares.len() <= MAX_SHARES_PER_MINER_PER_EPOCH
                &&& nts[j].invalid <= nts[j].total
                &&& (!nts[j].listed ==> nts[j].shares.len() == 0)
                &&& forall|k: int| 0 <= k < nts[j].shares.len() ==> {
                    &&& (#[trigger] nts[j].shares[k]).miner_id == nts[j].miner_id
                    &&& nts[j].shares[k].header.epoch_index == self.current_epoch
                }
            } by {
                if j != i {
                    assert(nts[j] == ts2[j]);
                } else {
                    assert(nts[j] == grown);
                    assert forall|k: int| 0 <= k < grown.shares.len() implies {
                        &&& (#[trigger] grown.shares[k]).miner_id == grown.miner_id
                        &&& grown.shares[k].header.epoch_index == self.current_epoch
                    } by {
                        if k < t2.shares.len() {
                            assert(grown.shares[k] == t2.shares[k]);
                        }
                    }
                }
            }
            let k = stored_count(ts2);
            let sz = vstd::layout::size_of::<Share>();
            assert((k + 1) * sz == k * sz + sz) by (nonlinear_arith);
        }
        self.memory_used = self.memory_used + share_size;
        Ok(true)
    }

    /// The miners with accepted shares this epoch, in the order first seen.
    pub fn miners(&self) -> (res: Vec<MinerId>)
        ensures
            res@ == listed_miners(self.tallies()),
    {
        let ghost ts = self.tallies();
        let mut res: Vec<MinerId> = Vec::new();
        let mut i: usize = 0;
        proof {
            assert(ts.subrange(0, 0) =~= Seq::<MinerTally>::empty());
        }
        while i < self.records.len()
            invariant
                ts == self.tallies(),
                i <= ts.len(),
                res@ == listed_miners(ts.subrange(0, i as int)),
            decreases ts.len() - i,
        {
            proof {
                assert(ts.subrange(0, i + 1).drop_last() =~= ts.subrange(0, i as int));
                assert(ts[i as int] == self.records@[i as int].tally());
            }
            if self.records[i].listed {
                res.push(self.records[i].miner_id);
            }
            i = i + 1;
        }
        proof {
            assert(ts.subrange(0, i as int) =~= ts);
        }
        res
    }

    /// The number of listed miners.
    pub fn active_miners_count(&self) -> (res: usize)
        ensures
            res == listed_miners(self.tallies()).len(),
    {
        let ghost ts = self.tallies();
        let mut n: usize = 0;
        let mut i: usize = 0;
        proof {
            assert(ts.subrange(0, 0) =~= Seq::<MinerTally>::empty());
        }
        while i < self.records.len()
            invariant
                ts == self.tallies(),
                i <= ts.len(),
                n == listed_miners(ts.subrange(0, i as int)).len(),
                n <= i,
            decreases ts.len() - i,
        {
            proof {
                assert(ts.subrange(0, i + 1).drop_last() =~= ts.subrange(0, i as int));
                assert(ts[i as int] == self.records@[i as int].tally());
            }
            if self.records[i].listed {
                n = n + 1;
            }
            i = i + 1;
        }
        proof {
            assert(ts.subrange(0, i as int) =~= ts);
        }
        n
    }

    /// The number of shares stored for `miner_id`.
    pub fn get_shares(&self, miner_id: &MinerId) -> (res: u64)
        requires
            self.wf(),
        ensures
            res == tally_of(self.tallies(), *miner_id).shares.len(),
    {
        match self.find_record(miner_id) {
            Some(i) => {
                proof {
                    assert(self.tallies()[i as int] == self.records@[i as int].tally());
                }
                self.records[i].shares.len() as u64
            },
            None => 0,
        }
    }

    /// The number of invalid shares `miner_id` submitted this epoch.
    pub fn invalid_shares_of(&self, miner_id: &MinerId) -> (res: u64)
        requires
            self.wf(),
        ensures
            res == tally_of(self.tallies(), *miner_id).invalid,
    {
        match self.find_record(miner_id) {
            Some(i) => {
                proof {
                    assert(self.tallies()[i as int] == self.records@[i as int].tally());
                }
                self.records[i].invalid
            },
            None => 0,
        }
    }

    /// The number of shares `miner_id` submitted this epoch, valid or not.
    pub fn total_shares_of(&self, miner_id: &MinerId) -> (res: u64)
        requires
            self.wf(),
        ensures
            res == tally_of(self.tallies(), *miner_id).total,
    {
        match self.find_record(miner_id) {
            Some(i) => {
                proof {
                    assert(self.tallies()[i as int] == self.records@[i as int].tally());
                }
                self.records[i].total
            },
            None => 0,
        }
    }

    /// The number of shares stored.
    pub fn total_shares_count(&self) -> (res: u64)
        requires
            stored_count(self.tallies()) <= u64::MAX,
        ensures
            res == stored_count(self.tallies()),
    {
        let ghost ts = self.tallies();
        let mut sum: u64 = 0;
        let mut i: usize = 0;
        proof {
            assert(ts.subrange(0, 0) =~= Seq::<MinerTally>::empty());
        }
        while i < self.records.len()
            invariant
                ts == self.tallies(),
                i <= ts.len(),
                sum == stored_count(ts.subrange(0, i as int)),
                stored_count(ts) <= u64::MAX,
            decreases ts.len() - i,
        {
            proof {
                assert(ts.subrange(0, i + 1).drop_last() =~= ts.subrange(0, i as int));
                assert(ts[i as int] == self.records@[i as int].tally());
                lemma_stored_prefix(ts, i as int + 1);
            }
            sum = sum + self.records[i].shares.len() as u64;
            i = i + 1;
        }
        proof {
            assert(ts.subrange(0, i as int) =~= ts);
        }
        sum
    }

    /// The memory the stored shares take, in bytes.
    pub fn memory_used(&self) -> (res: usize)
        ensures
            res == self.memory(),
    {
        self.memory_used
    }

    /// The epoch whose shares are accepted.
    pub fn current_epoch(&self) -> (res: u32)
        ensures
            res == self.epoch(),
    {
        self.current_epoch
    }

    /// The merkle root over the hashes of the stored shares in ascending
    /// byte order, or 32 zero bytes when no share is stored.
    pub fn calculate_merkle_root(&self) -> (res: Hash32)
        requires
            self.wf(),
        ensures
            self.hashes() == Set::<Seq<u8>>::empty() ==> res@ == Seq::new(32, |i: int| 0u8),
            self.hashes() != Set::<Seq<u8>>::empty() ==> res@ == merkle_root_of(
                ascending_of(self.hashes()),
            ),
    {
        proof {
            lemma_hash_set_views(self.share_hashes@);
        }
        if self.share_hashes.len() == 0 {
            let zero = [0u8; 32];
            proof {
                assert(zero@ =~= Seq::new(32, |i: int| 0u8));
                assert(seq_set(hash_views(self.share_hashes@)) =~= Set::<Seq<u8>>::empty());
            }
            return zero;
        }
        let sorted = sort_hashes(&self.share_hashes);
        proof {
            let sv = hash_views(sorted@);
            assert(all_32_bytes(sv));
            lemma_sorted_is_ascending_of(sv);
            let hv = hash_views(self.share_hashes@);
            assert(hv[0] == self.share_hashes@[0]@);
            assert(seq_set(hv).contains(hv[0]));
            if sorted@.len() == 0 {
                assert(sv.len() == 0);
                assert(!sv.contains(hv[0]));
            }
        }
        merkle_root(sorted)
    }

    /// Empties the pool and moves it to the next epoch, started at `now`.
    pub fn new_epoch(&mut self, now: Timestamp)
        requires
            old(self).epoch() < u32::MAX,
        ensures
            final(self).wf(),
            final(self).tallies().len() == 0,
            final(self).hashes() == Set::<Seq<u8>>::empty(),
            final(self).memory() == 0,
            final(self).epoch() == old(self).epoch() + 1,
            final(self).memory_limit() == old(self).memory_limit(),
            final(self).created() == now,
    {
        self.records = Vec::new();
        self.share_hashes = Vec::new();
        self.memory_used = 0;
        self.current_epoch = self.current_epoch + 1;
        self.created_at = now;
        proof {
            assert(self.tallies() =~= Seq::<MinerTally>::empty());
            assert(self.hashes() =~= Set::<Seq<u8>>::empty());
            assert(stored_count(self.tallies()) == 0);
            assert(memory_for(self.tallies()) == 0);
            assert(shares_of(self.tallies()) =~= Seq::<Seq<Share>>::empty());
            assert(stored_hashes(shares_of(self.tallies())) =~= Set::<Seq<u8>>::empty());
        }
    }
}

proof fn lemma_fullest_exists(ts: Seq<MinerTally>)
    requires
        stored_count(ts) > 0,
    ensures
        has_fullest(ts),
    decreases ts.len(),
{
    let d = ts.drop_last();
    let last = ts.len() - 1;
    assert(ts[last] == ts.last());
    if stored_count(d) > 0 {
        lemma_fullest_exists(d);
        let i = choose|i: int| is_fullest(d, i);
        assert(is_fullest(d, i));
        if ts.last().shares.len() > d[i].shares.len() {
            assert forall|j: int| 0 <= j < last implies (#[trigger] ts[j]).shares.len() < ts[last].shares.len() by {
                assert(ts[j] == d[j]);
            }
            assert(is_fullest(ts, last));
        } else {
            assert forall|j: int| 0 <= j < i implies (#[trigger] ts[j]).shares.len() < ts[i].shares.len() by {
                assert(ts[j] == d[j]);
            }
            assert forall|j: int| 0 <= j < ts.len() implies (#[trigger] ts[j]).shares.len() <= ts[i].shares.len() by {
                if j < last {
                    assert(ts[j] == d[j]);
                }
            }
            assert(ts[i] == d[i]);
            assert(is_fullest(ts, i));
        }
    } else {
        assert forall|j: int| 0 <= j < last implies (#[trigger] ts[j]).shares.len() < ts[last].shares.len() by {
            assert(ts[j] == d[j]);
            lemma_stored_at_least(d, j);
        }
        assert(is_fullest(ts, last));
    }
}

/// In a well-formed pool no miner stores more than the allowed number of
/// shares, and every stored share belongs to its miner and to the pool's
/// epoch.
pub proof fn lemma_shares_capped(pool: &SharePool, m: MinerId)
    requires
        pool.wf(),
    ensures
        tally_of(pool.tallies(), m).shares.len() <= MAX_SHARES_PER_MINER_PER_EPOCH,
        forall|k: int| 0 <= k < tally_of(pool.tallies(), m).shares.len() ==> {
            &&& (#[trigger] tally_of(pool.tallies(), m).shares[k]).miner_id == m
            &&& tally_of(pool.tallies(), m).shares[k].header.epoch_index == pool.epoch()
        },
{
    let ts = pool.tallies();
    if exists|i: int| 0 <= i < ts.len() && (#[trigger] ts[i]).miner_id == m {
        let i = choose|i: int| 0 <= i < ts.len() && (#[trigger] ts[i]).miner_id == m;
        assert(tally_of(ts, m) == ts[i]);
    }
}

/// A share that was just stored is ignored when offered again, valid or
/// not: the result is `Ok(false)` and the pool is unchanged.
pub proof fn lemma_resubmission_ignored(
    ts: Seq<MinerTally>,
    hs: Set<Seq<u8>>,
    memory: int,
    limit: int,
    epoch: u32,
    share: Share,
    is_valid: bool,
)
    requires
        add_outcome(ts, hs, memory, limit, epoch, share, true).0 == Ok::<bool, Seq<char>>(true),
    ensures
        ({
            let out = add_outcome(ts, hs, memory, limit, epoch, share, true);
            add_outcome(out.1, out.2, out.3, limit, epoch, share, is_valid) == (
                Ok::<bool, Seq<char>>(false),
                out.1,
                out.2,
                out.3,
            )
        }),
{
    let out = add_outcome(ts, hs, memory, limit, epoch, share, true);
    assert(out.2.contains(share_hash_of(share)));
}

proof fn lemma_tally_of_put(ts: Seq<MinerTally>, t: MinerTally)
    requires
        distinct_tallies(ts),
    ensures
        distinct_tallies(put_tally(ts, t)),
        tally_of(put_tally(ts, t), t.miner_id) == t,
{
    let m = t.miner_id;
    if exists|i: int| 0 <= i < ts.len() && (#[trigger] ts[i]).miner_id == m {
        let c = choose|i: int| 0 <= i < ts.len() && (#[trigger] ts[i]).miner_id == m;
        lemma_put_at(ts, c, t);
        lemma_tally_at(ts.update(c, t), c);
    } else {
        let u = ts.push(t);
        assert forall|a: int, b: int| 0 <= a < b < u.len() implies (#[trigger] u[a]).miner_id != (
        #[trigger] u[b]).miner_id by {
            if b == ts.len() {
                assert(u[a] == ts[a]);
                assert(!(0 <= a < ts.len() && ts[a].miner_id == m));
            } else {
                assert(u[a] == ts[a] && u[b] == ts[b]);
            }
        }
        lemma_tally_at(u, ts.len() as int);
    }
}

/// Evicting keeps the tallies distinct and changes no tally but in its
/// shares, of which it never adds any.
proof fn lemma_evicted_keeps(ts: Seq<MinerTally>, m: MinerId)
    requires
        distinct_tallies(ts),
    ensures
        distinct_tallies(evicted(ts)),
        tally_of(evicted(ts), m) == (MinerTally { shares: tally_of(evicted(ts), m).shares, ..tally_of(ts, m) }),
        tally_of(evicted(ts), m).shares.len() <= tally_of(ts, m).shares.len(),
{
    if has_fullest(ts) {
        let i = fullest_index(ts);
        let t = MinerTally { shares: ts[i].shares.drop_first(), ..ts[i] };
        lemma_put_at(ts, i, t);
        let e = evicted(ts);
        if exists|j: int| 0 <= j < ts.len() && (#[trigger] ts[j]).miner_id == m {
            let c = choose|j: int| 0 <= j < ts.len() && (#[trigger] ts[j]).miner_id == m;
            lemma_tally_at(ts, c);
            lemma_tally_at(e, c);
        } else {
            assert(!(exists|j: int| 0 <= j < e.len() && (#[trigger] e[j]).miner_id == m)) by {
                if exists|j: int| 0 <= j < e.len() && (#[trigger] e[j]).miner_id == m {
                    let j = choose|j: int| 0 <= j < e.len() && (#[trigger] e[j]).miner_id == m;
                    assert(ts[j].miner_id == m);
                }
            }
        }
    }
}

/// What offering a share does, in terms of the pool before it. A share of
/// another epoch is refused with "Wrong epoch" and a known one is ignored
/// (`Ok(false)`), both changing nothing. Any other counts as submitted by
/// its miner. An invalid one is also counted as invalid, answered
/// `Ok(false)`, and stores nothing. A valid one is stored (`Ok(true)`)
/// exactly when its miner stores fewer than the allowed number of shares:
/// it is then the miner's newest share and its hash is recorded; otherwise
/// it is refused and the recorded hashes and memory stay as they were.
pub proof fn lemma_add_outcome_effects(
    ts: Seq<MinerTally>,
    hs: Set<Seq<u8>>,
    memory: int,
    limit: int,
    epoch: u32,
    share: Share,
    is_valid: bool,
)
    requires
        distinct_tallies(ts),
        tally_of(ts, share.miner_id).total < u64::MAX,
        tally_of(ts, share.miner_id).invalid <= tally_of(ts, share.miner_id).total,
    ensures
        ({
            let out = add_outcome(ts, hs, memory, limit, epoch, share, is_valid);
            let m = share.miner_id;
            let h = share_hash_of(share);
            let fresh = share.header.epoch_index == epoch && !hs.contains(h);
            &&& share.header.epoch_index != epoch ==> out == (Err::<bool, Seq<char>>("Wrong epoch"@), ts, hs, memory)
            &&& share.header.epoch_index == epoch && hs.contains(h) ==> out == (Ok::<bool, Seq<char>>(false), ts, hs, memory)
            &&& fresh ==> tally_of(out.1, m).total == tally_of(ts, m).total + 1
            &&& fresh && !is_valid ==> {
                &&& out.0 == Ok::<bool, Seq<char>>(false)
                &&& tally_of(out.1, m).invalid == tally_of(ts, m).invalid + 1
                &&& tally_of(out.1, m).shares == tally_of(ts, m).shares
                &&& out.2 == hs
                &&& out.3 == memory
            }
            &&& fresh && is_valid ==> (out.0 == Ok::<bool, Seq<char>>(true) <==> tally_of(ts, m).shares.len()
                < MAX_SHARES_PER_MINER_PER_EPOCH)
            &&& fresh && is_valid && out.0 != Ok::<bool, Seq<char>>(true) ==> out.2 == hs && out.3 == memory
                && tally_of(out.1, m).shares == tally_of(ts, m).shares
            &&& out.0 == Ok::<bool, Seq<char>>(true) ==> {
                &&& out.2.contains(h)
                &&& tally_of(out.1, m).shares.len() > 0
                &&& tally_of(out.1, m).shares.last() == share
                &&& tally_of(out.1, m).shares.len() <= tally_of(ts, m).shares.len() + 1
            }
        }),
{
    let m = share.miner_id;
    let t = tally_of(ts, m);
    let counted = MinerTally { total: (t.total + 1) as u64, ..t };
    let ts1 = put_tally(ts, counted);
    lemma_tally_of_put(ts, counted);
    let marked = MinerTally { invalid: (t.invalid + 1) as u64, ..counted };
    lemma_tally_of_put(ts, marked);
    lemma_evicted_keeps(ts1, m);
    let ts2 = evicted(ts1);
    let t2 = tally_of(ts2, m);
    let ts2b = if limit < memory + vstd::layout::size_of::<Share>() { ts2 } else { ts1 };
    let t2b = tally_of(ts2b, m);
    let grown = MinerTally { shares: t2b.shares.push(share), listed: true, ..t2b };
    if limit < memory + vstd::layout::size_of::<Share>() {
        lemma_tally_of_put(ts2, grown);
    } else {
        lemma_tally_of_put(ts1, grown);
    }
}

/// A valid share of the pool's epoch, not yet known, from a miner that
/// already stores the most shares allowed is refused, and the stored
/// shares, their hashes and the memory used stay as they were (only the
/// miner's count of submitted shares grows).
pub proof fn lemma_capped_share_refused(
    ts: Seq<MinerTally>,
    hs: Set<Seq<u8>>,
    memory: int,
    limit: int,
    epoch: u32,
    share: Share,
)
    requires
        share.header.epoch_index == epoch,
        !hs.contains(share_hash_of(share)),
        tally_of(ts, share.miner_id).shares.len() >= MAX_SHARES_PER_MINER_PER_EPOCH,
    ensures
        ({
            let out = add_outcome(ts, hs, memory, limit, epoch, share, true);
            &&& out.0 == Err::<bool, Seq<char>>("Max shares per miner exceeded"@)
            &&& shares_of(out.1) == shares_of(ts)
            &&& out.2 == hs
            &&& out.3 == memory
        }),
{
    let m = share.miner_id;
    let t = tally_of(ts, m);
    let counted = MinerTally { total: (t.total + 1) as u64, ..t };
    assert(exists|i: int| 0 <= i < ts.len() && (#[trigger] ts[i]).miner_id == m);
    let c = choose|i: int| 0 <= i < ts.len() && (#[trigger] ts[i]).miner_id == m;
    assert(put_tally(ts, counted) == ts.update(c, counted));
    assert(shares_of(ts.update(c, counted)) =~= shares_of(ts));
}

/// Offering a share to a well-formed pool within its memory bound keeps it
/// within the bound, provided one share fits in it.
pub proof fn lemma_memory_within_bound(pool: &SharePool, share: Share, is_valid: bool)
    requires
        pool.wf(),
        pool.memory() <= pool.memory_limit(),
        vstd::layout::size_of::<Share>() <= pool.memory_limit(),
    ensures
        add_outcome(
            pool.tallies(),
            pool.hashes(),
            pool.memory() as int,
            pool.memory_limit() as int,
            pool.epoch(),
            share,
            is_valid,
        ).3 <= pool.memory_limit(),
{
    let ts = pool.tallies();
    let m = share.miner_id;
    let t = tally_of(ts, m);
    let counted = MinerTally { total: (t.total + 1) as u64, ..t };
    let ts1 = put_tally(ts, counted);
    if exists|i: int| 0 <= i < ts.len() && (#[trigger] ts[i]).miner_id == m {
        let c = choose|i: int| 0 <= i < ts.len() && (#[trigger] ts[i]).miner_id == m;
        lemma_tally_at(ts, c);
        lemma_put_at(ts, c, counted);
        lemma_stored_update(ts, c, counted);
    } else {
        lemma_stored_push(ts, counted);
    }
    assert(stored_count(ts1) == stored_count(ts));
    if !has_fullest(ts1) {
        if stored_count(ts1) > 0 {
            lemma_fullest_exists(ts1);
        }
        assert(stored_count(ts) == 0);
        assert(memory_for(ts) == (0 * vstd::layout::size_of::<Share>()) as int);
        assert(memory_for(ts) == 0);
    }
}

proof fn lemma_hash_set_views(hs: Seq<Hash32>)
    ensures
        hash_set(hs) == seq_set(hash_views(hs)),
{
    let hv = hash_views(hs);
    assert forall|v: Seq<u8>| #[trigger] hash_set(hs).contains(v) == seq_set(hv).contains(v) by {
        if hash_set(hs).contains(v) {
            let k = choose|k: int| 0 <= k < hs.len() && (#[trigger] hs[k])@ == v;
            assert(hv[k] == v);
        }
        if hv.contains(v) {
            let k = choose|k: int| 0 <= k < hv.len() && hv[k] == v;
            assert(hs[k]@ == v);
        }
    }
    assert(hash_set(hs) =~= seq_set(hv));
}

proof fn lemma_stored_prefix(ts: Seq<MinerTally>, k: int)
    requires
        0 <= k <= ts.len(),
    ensures
        stored_count(ts.subrange(0, k)) <= stored_count(ts),
    decreases ts.len() - k,
{
    if k < ts.len() {
        lemma_stored_prefix(ts, k + 1);
        assert(ts.subrange(0, k + 1).drop_last() =~= ts.subrange(0, k));
    } else {
        assert(ts.subrange(0, k) =~= ts);
    }
}

proof fn lemma_put_twice(ts: Seq<MinerTally>, m: MinerId, i: int, t: MinerTally)
    requires
        distinct_tallies(ts),
        0 <= i < put_tally(ts, tally_of(ts, m)).len(),
        put_tally(ts, tally_of(ts, m))[i].miner_id == m,
        t.miner_id == m,
    ensures
        put_tally(ts, t) == put_tally(ts, tally_of(ts, m)).update(i, t),
{
    if exists|j: int| 0 <= j < ts.len() && (#[trigger] ts[j]).miner_id == m {
        let c = choose|j: int| 0 <= j < ts.len() && (#[trigger] ts[j]).miner_id == m;
        lemma_tally_at(ts, c);
        lemma_put_at(ts, c, ts[c]);
        lemma_put_at(ts, c, t);
        assert(ts.update(c, ts[c]) =~= ts);
        if i != c {
            if i < c {
                assert(ts[i].miner_id != ts[c].miner_id);
            } else {
                assert(ts[c].miner_id != ts[i].miner_id);
            }
        }
    } else {
        let e = empty_tally(m);
        assert(put_tally(ts, e) == ts.push(e));
        if i < ts.len() {
            assert(ts.push(e)[i] == ts[i]);
        }
        assert(ts.push(t) =~= ts.push(e).update(i, t));
    }
}

proof fn lemma_hash_set_push(hs: Seq<Hash32>, h: Hash32)
    ensures
        hash_set(hs.push(h)) == hash_set(hs).insert(h@),
{
    let p = hs.push(h);
    assert forall|v: Seq<u8>| #[trigger] hash_set(p).contains(v) == hash_set(hs).insert(h@).contains(v) by {
        if hash_set(p).contains(v) {
            let j = choose|j: int| 0 <= j < p.len() && (#[trigger] p[j])@ == v;
            if j < hs.len() {
                assert(p[j] == hs[j]);
                assert(hash_set(hs).contains(v));
            }
        }
        if hash_set(hs).contains(v) {
            let j = choose|j: int| 0 <= j < hs.len() && (#[trigger] hs[j])@ == v;
            assert(p[j] == hs[j]);
            assert(hash_set(p).contains(v));
        }
        if v == h@ {
            assert(p[hs.len() as int] == h);
            assert(hash_set(p).contains(v));
        }
    }
    assert(hash_set(p) =~= hash_set(hs).insert(h@));
}

proof fn lemma_tally_at(ts: Seq<MinerTally>, i: int)
    requires
        distinct_tallies(ts),
        0 <= i < ts.len(),
    ensures
        tally_of(ts, ts[i].miner_id) == ts[i],
{
    let m = ts[i].miner_id;
    assert(0 <= i < ts.len() && ts[i].miner_id == m);
    let c = choose|j: int| 0 <= j < ts.len() && (#[trigger] ts[j]).miner_id == m;
    if c != i {
        if c < i {
            assert(ts[c].miner_id != ts[i].miner_id);
        } else {
            assert(ts[i].miner_id != ts[c].miner_id);
        }
    }
}

proof fn lemma_put_at(ts: Seq<MinerTally>, i: int, t: MinerTally)
    requires
        distinct_tallies(ts),
        0 <= i < ts.len(),
        t.miner_id == ts[i].miner_id,
    ensures
        put_tally(ts, t) == ts.update(i, t),
        distinct_tallies(ts.update(i, t)),
{
    let m = t.miner_id;
    assert(0 <= i < ts.len() && ts[i].miner_id == m);
    let c = choose|j: int| 0 <= j < ts.len() && (#[trigger] ts[j]).miner_id == m;
    if c != i {
        if c < i {
            assert(ts[c].miner_id != ts[i].miner_id);
        } else {
            assert(ts[i].miner_id != ts[c].miner_id);
        }
    }
    let u = ts.update(i, t);
    assert forall|a: int, b: int| 0 <= a < b < u.len() implies (#[trigger] u[a]).miner_id != (
    #[trigger] u[b]).miner_id by {
        assert(u[a].miner_id == ts[a].miner_id);
        assert(u[b].miner_id == ts[b].miner_id);
    }
}

proof fn lemma_stored_push(ts: Seq<MinerTally>, t: MinerTally)
    ensures
        stored_count(ts.push(t)) == stored_count(ts) + t.shares.len(),
{
    assert(ts.push(t).drop_last() =~= ts);
}

proof fn lemma_stored_update(ts: Seq<MinerTally>, i: int, t: MinerTally)
    requires
        0 <= i < ts.len(),
    ensures
        stored_count(ts.update(i, t)) == stored_count(ts) - ts[i].shares.len() + t.shares.len(),
    decreases ts.len(),
{
    let u = ts.update(i, t);
    if i == ts.len() - 1 {
        assert(u.drop_last() =~= ts.drop_last());
    } else {
        lemma_stored_update(ts.drop_last(), i, t);
        assert(u.drop_last() =~= ts.drop_last().update(i, t));
    }
}

proof fn lemma_stored_at_least(ts: Seq<MinerTally>, i: int)
    requires
        0 <= i < ts.len(),
    ensures
        stored_count(ts) >= ts[i].shares.len(),
    decreases ts.len(),
{
    if i < ts.len() - 1 {
        lemma_stored_at_least(ts.drop_last(), i);
    }
}

proof fn lemma_stored_zero(ts: Seq<MinerTally>)
    requires
        forall|j: int| 0 <= j < ts.len() ==> (#[trigger] ts[j]).shares.len() == 0,
    ensures
        stored_count(ts) == 0,
    decreases ts.len(),
{
    if ts.len() > 0 {
        let d = ts.drop_last();
        assert forall|j: int| 0 <= j < d.len() implies (#[trigger] d[j]).shares.len() == 0 by {
            assert(d[j] == ts[j]);
        }
        lemma_stored_zero(d);
        assert(ts.last() == ts[ts.len() - 1]);
    }
}

proof fn lemma_fullest_unique(ts: Seq<MinerTally>, i: int)
    requires
        is_fullest(ts, i),
    ensures
        has_fullest(ts),
        fullest_index(ts) == i,
{
    let c = choose|j: int| is_fullest(ts, j);
    assert(is_fullest(ts, c));
    if c < i {
        assert(ts[c].shares.len() < ts[i].shares.len());
        assert(ts[i].shares.len() <= ts[c].shares.len());
    } else if c > i {
        assert(ts[i].shares.len() < ts[c].shares.len());
        assert(ts[c].shares.len() <= ts[i].shares.len());
    }
}

proof fn lemma_hash_set_remove(hs: Seq<Hash32>, k: int)
    requires
        0 <= k < hs.len(),
        forall|a: int, b: int| 0 <= a < b < hs.len() ==> (#[trigger] hs[a])@ != (#[trigger] hs[b])@,
    ensures
        hash_set(hs.remove(k)) == hash_set(hs).remove(hs[k]@),
        forall|a: int, b: int|
            0 <= a < b < hs.remove(k).len() ==> (#[trigger] hs.remove(k)[a])@ != (
            #[trigger] hs.remove(k)[b])@,
{
    let r = hs.remove(k);
    assert forall|v: Seq<u8>| #[trigger] hash_set(r).contains(v) == hash_set(hs).remove(hs[k]@).contains(v) by {
        if hash_set(r).contains(v) {
            let j = choose|j: int| 0 <= j < r.len() && (#[trigger] r[j])@ == v;
            if j < k {
                assert(r[j] == hs[j]);
                assert(hs[j]@ != hs[k]@);
            } else {
                assert(r[j] == hs[j + 1]);
                assert(hs[k]@ != hs[j + 1]@);
            }
            assert(hash_set(hs).contains(v));
        }
        if hash_set(hs).remove(hs[k]@).contains(v) {
            let j = choose|j: int| 0 <= j < hs.len() && (#[trigger] hs[j])@ == v;
            assert(j != k);
            if j < k {
                assert(r[j] == hs[j]);
            } else {
                assert(r[j - 1] == hs[j]);
            }
            assert(hash_set(r).contains(v));
        }
    }
    assert(hash_set(r) =~= hash_set(hs).remove(hs[k]@));
    assert forall|a: int, b: int| 0 <= a < b < r.len() implies (#[trigger] r[a])@ != (#[trigger] r[b])@ by {
        let a2 = if a < k { a } else { a + 1 };
        let b2 = if b < k { b } else { b + 1 };
        assert(r[a] == hs[a2]);
        assert(r[b] == hs[b2]);
    }
}


/// In a well-formed pool the recorded hashes are exactly those of the
/// stored shares, no two stored shares share a hash, the memory in use is
/// that of the stored shares, and it stays within the limit (within one
/// share when the limit is below the size of one share).
pub proof fn lemma_pool_records_what_it_stores(pool: &SharePool)
    requires
        pool.wf(),
    ensures
        pool.hashes() == stored_hashes(shares_of(pool.tallies())),
        pool.memory() as int == memory_for(pool.tallies()),
        distinct_stored(shares_of(pool.tallies())),
        pool.memory() <= pool.memory_limit() || pool.memory() as int <= vstd::layout::size_of::<Share>(),
{
}

proof fn lemma_stored_same(ss: Seq<Seq<Share>>, ss2: Seq<Seq<Share>>)
    requires
        ss2 =~= ss,
    ensures
        stored_hashes(ss2) == stored_hashes(ss),
        distinct_stored(ss) ==> distinct_stored(ss2),
{
}

proof fn lemma_stored_push_empty(ss: Seq<Seq<Share>>)
    ensures
        stored_hashes(ss.push(Seq::empty())) == stored_hashes(ss),
        distinct_stored(ss) ==> distinct_stored(ss.push(Seq::empty())),
{
    let u = ss.push(Seq::<Share>::empty());
    assert forall|v: Seq<u8>| #[trigger] stored_hashes(u).contains(v) == stored_hashes(ss).contains(v) by {
        if stored_hashes(u).contains(v) {
            let (i, k) = choose|i: int, k: int|
                0 <= i < u.len() && 0 <= k < u[i].len() && #[trigger] share_hash_of(u[i][k]) == v;
            assert(i < ss.len());
            assert(u[i] == ss[i]);
        }
        if stored_hashes(ss).contains(v) {
            let (i, k) = choose|i: int, k: int|
                0 <= i < ss.len() && 0 <= k < ss[i].len() && #[trigger] share_hash_of(ss[i][k]) == v;
            assert(u[i] == ss[i]);
            assert(share_hash_of(u[i][k]) == v);
        }
    }
    assert(stored_hashes(u) =~= stored_hashes(ss));
    if distinct_stored(ss) {
        assert forall|i: int, k: int, j: int, l: int|
            0 <= i < u.len() && 0 <= k < u[i].len() && 0 <= j < u.len() && 0 <= l < u[j].len() && (i
                != j || k != l) implies share_hash_of(#[trigger] u[i][k]) != share_hash_of(#[trigger] u[j][l]) by {
            assert(i < ss.len() && j < ss.len());
            assert(u[i] == ss[i] && u[j] == ss[j]);
        }
    }
}

proof fn lemma_stored_drop_first(ss: Seq<Seq<Share>>, f: int)
    requires
        0 <= f < ss.len(),
        ss[f].len() > 0,
        distinct_stored(ss),
    ensures
        stored_hashes(ss.update(f, ss[f].drop_first())) == stored_hashes(ss).remove(share_hash_of(ss[f][0])),
        distinct_stored(ss.update(f, ss[f].drop_first())),
{
    let u = ss.update(f, ss[f].drop_first());
    let h0 = share_hash_of(ss[f][0]);
    assert forall|j: int, l: int| 0 <= j < u.len() && 0 <= l < u[j].len() implies #[trigger] u[j][l] == (if j == f {
        ss[j][l + 1]
    } else {
        ss[j][l]
    }) by {}
    assert forall|v: Seq<u8>| #[trigger] stored_hashes(u).contains(v) == stored_hashes(ss).remove(h0).contains(v) by {
        if stored_hashes(u).contains(v) {
            let (i, k) = choose|i: int, k: int|
                0 <= i < u.len() && 0 <= k < u[i].len() && #[trigger] share_hash_of(u[i][k]) == v;
            if i == f {
                assert(u[i][k] == ss[f][k + 1]);
                assert(share_hash_of(ss[f][k + 1]) == v);
                assert(share_hash_of(ss[f][k + 1]) != share_hash_of(ss[f][0]));
            } else {
                assert(u[i][k] == ss[i][k]);
                assert(share_hash_of(ss[i][k]) != share_hash_of(ss[f][0]));
            }
        }
        if stored_hashes(ss).remove(h0).contains(v) {
            let (i, k) = choose|i: int, k: int|
                0 <= i < ss.len() && 0 <= k < ss[i].len() && #[trigger] share_hash_of(ss[i][k]) == v;
            if i == f {
                assert(k != 0);
                assert(u[f][k - 1] == ss[f][k]);
                assert(share_hash_of(u[f][k - 1]) == v);
            } else {
                assert(u[i][k] == ss[i][k]);
                assert(share_hash_of(u[i][k]) == v);
            }
        }
    }
    assert(stored_hashes(u) =~= stored_hashes(ss).remove(h0));
    assert forall|i: int, k: int, j: int, l: int|
        0 <= i < u.len() && 0 <= k < u[i].len() && 0 <= j < u.len() && 0 <= l < u[j].len() && (i != j
            || k != l) implies share_hash_of(#[trigger] u[i][k]) != share_hash_of(#[trigger] u[j][l]) by {
        let k2 = if i == f { k + 1 } else { k };
        let l2 = if j == f { l + 1 } else { l };
        assert(u[i][k] == ss[i][k2]);
        assert(u[j][l] == ss[j][l2]);
        assert(share_hash_of(ss[i][k2]) != share_hash_of(ss[j][l2]));
    }
}

proof fn lemma_stored_grow(ss: Seq<Seq<Share>>, g: int, share: Share)
    requires
        0 <= g < ss.len(),
        distinct_stored(ss),
        !stored_hashes(ss).contains(share_hash_of(share)),
    ensures
        stored_hashes(ss.update(g, ss[g].push(share))) == stored_hashes(ss).insert(share_hash_of(share)),
        distinct_stored(ss.update(g, ss[g].push(share))),
{
    let u = ss.update(g, ss[g].push(share));
    let h = share_hash_of(share);
    let n = ss[g].len() as int;
    assert forall|j: int, l: int| 0 <= j < u.len() && 0 <= l < u[j].len() && !(j == g && l == n) implies #[trigger] u[j][l] == ss[j][l] by {}
    assert(u[g][n] == share);
    assert forall|v: Seq<u8>| #[trigger] stored_hashes(u).contains(v) == stored_hashes(ss).insert(h).contains(v) by {
        if stored_hashes(u).contains(v) {
            let (i, k) = choose|i: int, k: int|
                0 <= i < u.len() && 0 <= k < u[i].len() && #[trigger] share_hash_of(u[i][k]) == v;
            if !(i == g && k == n) {
                assert(u[i][k] == ss[i][k]);
                assert(share_hash_of(ss[i][k]) == v);
            }
        }
        if stored_hashes(ss).contains(v) {
            let (i, k) = choose|i: int, k: int|
                0 <= i < ss.len() && 0 <= k < ss[i].len() && #[trigger] share_hash_of(ss[i][k]) == v;
            assert(u[i][k] == ss[i][k]);
            assert(share_hash_of(u[i][k]) == v);
        }
        if v == h {
            assert(share_hash_of(u[g][n]) == v);
        }
    }
    assert(stored_hashes(u) =~= stored_hashes(ss).insert(h));
    assert forall|i: int, k: int, j: int, l: int|
        0 <= i < u.len() && 0 <= k < u[i].len() && 0 <= j < u.len() && 0 <= l < u[j].len() && (i != j
            || k != l) implies share_hash_of(#[trigger] u[i][k]) != share_hash_of(#[trigger] u[j][l]) by {
        let new_i = i == g && k == n;
        let new_j = j == g && l == n;
        if !new_i && !new_j {
            assert(u[i][k] == ss[i][k]);
            assert(u[j][l] == ss[j][l]);
        } else if new_i {
            assert(u[j][l] == ss[j][l]);
            assert(stored_hashes(ss).contains(share_hash_of(ss[j][l])));
        } else {
            assert(u[i][k] == ss[i][k]);
            assert(stored_hashes(ss).contains(share_hash_of(ss[i][k])));
        }
    }
}

} // verus!
