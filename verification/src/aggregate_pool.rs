//! The pool of verified share aggregates of an epoch: one aggregate per
//! miner, a set of merkle roots already accepted, and a bound on how many
//! aggregates are kept.

use vstd::prelude::*;

use crate::encoding::arrays_equal;
use crate::share::{aggregate_valid, AggregatedShare, Share};
use crate::types::{Hash32, MinerId};

verus! {

/// The entries after adding `agg`: it replaces the entry of the same miner
/// in place, or is appended.
pub open spec fn with_aggregate(entries: Seq<AggregatedShare>, agg: AggregatedShare) -> Seq<
    AggregatedShare,
> {
    if exists|i: int| 0 <= i < entries.len() && (#[trigger] entries[i]).miner_id == agg.miner_id {
        let i = choose|i: int|
            0 <= i < entries.len() && (#[trigger] entries[i]).miner_id == agg.miner_id;
        entries.update(i, agg)
    } else {
        entries.push(agg)
    }
}

/// The share count of `miner`'s entry, or 0.
pub open spec fn count_of(entries: Seq<AggregatedShare>, miner: MinerId) -> u32 {
    if exists|i: int| 0 <= i < entries.len() && (#[trigger] entries[i]).miner_id == miner {
        entries[choose|i: int| 0 <= i < entries.len() && (#[trigger] entries[i]).miner_id == miner].share_count
    } else {
        0
    }
}

/// The sum of the share counts.
pub open spec fn total_count(entries: Seq<AggregatedShare>) -> int
    decreases entries.len(),
{
    if entries.len() == 0 {
        0
    } else {
        total_count(entries.drop_last()) + entries.last().share_count
    }
}

/// No two entries belong to the same miner.
pub open spec fn distinct_miners(entries: Seq<AggregatedShare>) -> bool {
    forall|i: int, j: int|
        0 <= i < j < entries.len() ==> (#[trigger] entries[i]).miner_id != (#[trigger] entries[j]).miner_id
}

/// The set of roots a sequence holds.
pub open spec fn roots_of(s: Seq<Hash32>) -> Set<Hash32> {
    Set::new(|r: Hash32| s.contains(r))
}

/// The pool of aggregates.
pub struct AggregatedSharePool {
    aggregates: Vec<AggregatedShare>,
    verified_roots: Vec<Hash32>,
    max_aggregates: usize,
}

impl AggregatedSharePool {
    #[verifier::type_invariant]
    spec fn inv(self) -> bool {
        distinct_miners(self.aggregates@)
    }

    /// The aggregates, in the order they were first added.
    pub closed spec fn entries(self) -> Seq<AggregatedShare> {
        self.aggregates@
    }

    /// The merkle roots already accepted.
    pub closed spec fn roots(self) -> Set<Hash32> {
        roots_of(self.verified_roots@)
    }

    /// The largest number of aggregates kept.
    pub closed spec fn capacity(self) -> usize {
        self.max_aggregates
    }

    /// An empty pool keeping at most `max_aggregates` aggregates.
    pub fn new(max_aggregates: usize) -> (res: Self)
        ensures
            res.entries().len() == 0,
            res.roots() == Set::<Hash32>::empty(),
            res.capacity() == max_aggregates,
    {
        let r = AggregatedSharePool {
            aggregates: Vec::new(),
            verified_roots: Vec::new(),
            max_aggregates,
        };
        proof {
            assert(roots_of(r.verified_roots@) =~= Set::<Hash32>::empty());
        }
        r
    }

    fn find_miner(&self, miner: &MinerId) -> (res: Option<usize>)
        ensures
            match res {
                Some(i) => i < self.aggregates@.len() && self.aggregates@[i as int].miner_id == *miner,
                None => forall|i: int|
                    0 <= i < self.aggregates@.len() ==> (#[trigger] self.aggregates@[i]).miner_id
                        != *miner,
            },
    {
        let mut i: usize = 0;
        while i < self.aggregates.len()
            invariant
                i <= self.aggregates@.len(),
                forall|j: int| 0 <= j < i ==> (#[trigger] self.aggregates@[j]).miner_id != *miner,
            decreases self.aggregates@.len() - i,
        {
            if arrays_equal(&self.aggregates[i].miner_id, miner) {
                return Some(i);
            }
            i = i + 1;
        }
        None
    }

    fn has_root(&self, root: &Hash32) -> (res: bool)
        ensures
            res == self.roots().contains(*root),
    {
        let mut i: usize = 0;
        while i < self.verified_roots.len()
            invariant
                i <= self.verified_roots@.len(),
                forall|j: int| 0 <= j < i ==> self.verified_roots@[j] != *root,
            decreases self.verified_roots@.len() - i,
        {
            if arrays_equal(&self.verified_roots[i], root) {
                proof {
                    assert(self.verified_roots@.contains(*root));
                }
                return true;
            }
            i = i + 1;
        }
        false
    }

    /// Adds an aggregate accepted for its shares under the miner's public
    /// key `public_key` (see `aggregate_valid`) whose merkle root was not
    /// accepted before: it replaces the miner's entry or is appended,
    /// and its root is accepted. When the pool then holds more than its
    /// capacity, the first entry is dropped with its root. `Ok(false)`,
    /// with the pool unchanged, for a known root or an aggregate that is not
    /// accepted. It never fails.
    pub fn add_aggregate(&mut self, agg: AggregatedShare, shares: &[Share], public_key: &[u8; 33]) -> (res: Result<
        bool,
        String,
    >)
        requires
            shares@.len() as u32 == agg.share_count ==> shares@.len() > 0,
        ensures
            ({
                let added = with_aggregate(old(self).entries(), agg);
                &&& final(self).capacity() == old(self).capacity()
                &&& old(self).roots().contains(agg.merkle_root) ==> res == Ok::<bool, String>(false)
                    && final(self).entries() == old(self).entries() && final(self).roots() == old(self).roots()
                &&& !old(self).roots().contains(agg.merkle_root) && !aggregate_valid(agg, shares@, public_key@)
                    ==> res == Ok::<bool, String>(false) && final(self).entries() == old(self).entries()
                    && final(self).roots() == old(self).roots()
                &&& !old(self).roots().contains(agg.merkle_root) && aggregate_valid(agg, shares@, public_key@)
                    ==> res == Ok::<bool, String>(true) && if added.len() > old(self).capacity() {
                    &&& final(self).entries() == added.drop_first()
                    &&& final(self).roots() == old(self).roots().insert(agg.merkle_root).remove(
                        added[0].merkle_root,
                    )
                } else {
                    &&& final(self).entries() == added
                    &&& final(self).roots() == old(self).roots().insert(agg.merkle_root)
                }
            }),
    {
        proof {
            use_type_invariant(&*self);
        }
        if self.has_root(&agg.merkle_root) {
            return Ok(false);
        }
        match agg.verify(shares, public_key) {
            Ok(true) => {},
            _ => return Ok(false),
        }
        let ghost old_entries = self.aggregates@;
        let ghost old_roots = self.verified_roots@;
        let root = agg.merkle_root;
        let found = self.find_miner(&agg.miner_id);
        let mut aggregates: Vec<AggregatedShare> = Vec::new();
        std::mem::swap(&mut aggregates, &mut self.aggregates);
        let ghost agg_v = agg;
        match found {
            Some(i) => {
                aggregates.set(i, agg);
                proof {
                    assert(old_entries[i as int].miner_id == agg_v.miner_id);
                    assert(aggregates@ == with_aggregate(old_entries, agg_v));
                }
            },
            None => {
                aggregates.push(agg);
                proof {
                    assert(aggregates@ == with_aggregate(old_entries, agg_v));
                }
            },
        }
        let mut roots: Vec<Hash32> = Vec::new();
        std::mem::swap(&mut roots, &mut self.verified_roots);
        roots.push(root);
        proof {
            broadcast use vstd::seq_lib::group_seq_properties;

            assert(roots_of(roots@) =~= roots_of(old_roots).insert(root));
        }
        if aggregates.len() > self.max_aggregates {
            let oldest = aggregates.remove(0);
            let mut kept: Vec<Hash32> = Vec::new();
            let mut j: usize = 0;
            while j < roots.len()
                invariant
                    j <= roots@.len(),
                    roots_of(kept@) =~= roots_of(roots@.subrange(0, j as int)).remove(oldest.merkle_root),
                decreases roots@.len() - j,
            {
                let r = roots[j];
                let ghost prev = kept@;
                let ghost pre = roots@.subrange(0, j as int);
                proof {
                    assert(roots@.subrange(0, j + 1) =~= pre.push(r));
                }
                if !arrays_equal(&r, &oldest.merkle_root) {
                    kept.push(r);
                    proof {
                        broadcast use vstd::seq_lib::group_seq_properties;

                        assert forall|x: Hash32| #[trigger] roots_of(kept@).contains(x) == roots_of(
                            pre.push(r),
                        ).remove(oldest.merkle_root).contains(x) by {
                            assert(kept@ == prev.push(r));
                            assert(kept@.contains(x) == (prev.contains(x) || x == r));
                            assert(pre.push(r).contains(x) == (pre.contains(x) || x == r));
                            assert(roots_of(prev).contains(x) == prev.contains(x));
                            assert(roots_of(pre).contains(x) == pre.contains(x));
                            assert(roots_of(prev).contains(x) == (roots_of(pre).contains(x) && x
                                != oldest.merkle_root));
                        }
                        assert(roots_of(kept@) =~= roots_of(pre.push(r)).remove(oldest.merkle_root));
                    }
                } else {
                    proof {
                        broadcast use vstd::seq_lib::group_seq_properties;

                        assert forall|x: Hash32| #[trigger] roots_of(kept@).contains(x) == roots_of(
                            pre.push(r),
                        ).remove(oldest.merkle_root).contains(x) by {
                            if pre.contains(x) {
                                assert(roots_of(pre).contains(x));
                            }
                            if x != r && pre.push(r).contains(x) {
                                let t = choose|t: int| 0 <= t < pre.len() + 1 && pre.push(r)[t] == x;
                                assert(t < pre.len());
                                assert(pre[t] == x);
                            }
                        }
                        assert(roots_of(kept@) =~= roots_of(pre.push(r)).remove(oldest.merkle_root));
                    }
                }
                j = j + 1;
            }
            proof {
                assert(roots@.subrange(0, roots@.len() as int) =~= roots@);
                broadcast use vstd::seq_lib::group_seq_properties;

                assert(roots_of(roots@.subrange(0, 0)) =~= Set::<Hash32>::empty());
            }
            roots = kept;
        }
        proof {
            assert forall|a: int, b: int|
                0 <= a < b < aggregates@.len() implies (#[trigger] aggregates@[a]).miner_id != (
            #[trigger] aggregates@[b]).miner_id by {
                let added = with_aggregate(old_entries, agg_v);
                if aggregates@.len() == added.len() {
                    if a < old_entries.len() && b < old_entries.len() {
                    } else {
                    }
                }
            }
        }
        self.aggregates = aggregates;
        self.verified_roots = roots;
        Ok(true)
    }

    /// The share count of `miner`'s aggregate, or 0.
    pub fn get_share_count(&self, miner_id: &MinerId) -> (res: u32)
        ensures
            res == count_of(self.entries(), *miner_id),
    {
        match self.find_miner(miner_id) {
            Some(i) => {
                proof {
                    use_type_invariant(self);
                }
                self.aggregates[i].share_count
            },
            None => 0,
        }
    }

    /// Empties the pool for a new epoch.
    pub fn new_epoch(&mut self)
        ensures
            final(self).entries().len() == 0,
            final(self).roots() == Set::<Hash32>::empty(),
            final(self).capacity() == old(self).capacity(),
    {
        self.aggregates = Vec::new();
        self.verified_roots = Vec::new();
        proof {
            assert(roots_of(self.verified_roots@) =~= Set::<Hash32>::empty());
        }
    }

    /// The number of miners with an aggregate.
    pub fn active_miners(&self) -> (res: usize)
        ensures
            res == self.entries().len(),
    {
        self.aggregates.len()
    }

    /// The sum of the share counts of all aggregates.
    pub fn total_shares(&self) -> (res: u32)
        requires
            total_count(self.entries()) <= u32::MAX,
        ensures
            res == total_count(self.entries()),
    {
        let mut sum: u32 = 0;
        let mut i: usize = 0;
        proof {
            assert(self.aggregates@.subrange(0, 0) =~= Seq::<AggregatedShare>::empty());
        }
        while i < self.aggregates.len()
            invariant
                i <= self.aggregates@.len(),
                sum == total_count(self.aggregates@.subrange(0, i as int)),
                total_count(self.aggregates@) <= u32::MAX,
            decreases self.aggregates@.len() - i,
        {
            proof {
                assert(self.aggregates@.subrange(0, i + 1).drop_last() =~= self.aggregates@.subrange(
                    0,
                    i as int,
                ));
                lemma_total_count_prefix(self.aggregates@, i as int + 1);
            }
            sum = sum + self.aggregates[i].share_count;
            i = i + 1;
        }
        proof {
            assert(self.aggregates@.subrange(0, i as int) =~= self.aggregates@);
        }
        sum
    }
}

proof fn lemma_total_count_prefix(entries: Seq<AggregatedShare>, k: int)
    requires
        0 <= k <= entries.len(),
    ensures
        total_count(entries.subrange(0, k)) <= total_count(entries),
    decreases entries.len() - k,
{
    if k < entries.len() {
        lemma_total_count_prefix(entries, k + 1);
        assert(entries.subrange(0, k + 1).drop_last() =~= entries.subrange(0, k));
    } else {
        assert(entries.subrange(0, k) =~= entries);
    }
}

} // verus!
