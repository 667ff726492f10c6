//! Block headers, their 120-byte encoding, and the memory-hard proof-of-work
//! hash over that encoding (Argon2id with a cache of recent results).

use vstd::prelude::*;

use vstd::bytes::{
    lemma_auto_spec_u32_to_from_le_bytes, lemma_auto_spec_u64_to_from_le_bytes,
    spec_u32_to_le_bytes, spec_u64_to_le_bytes,
};

use crate::bignum::{be_value, lemma_be_value_bound, lemma_be_value_split, lemma_pow256_add, lemma_pow256_pos, pow256};
use crate::crypto::{argon2id_digest, argon2id_hash, sha256, sha256_digest};
use crate::encoding::{append_bytes, append_u32_le, append_u64_le, bytes_equal};
use crate::target::Target;
use crate::types::{
    Hash32, Timestamp, ARGON2_ITERATIONS, ARGON2_MEMORY_KB, ARGON2_PARALLELISM,
};

verus! {

/// The salt of the proof-of-work hash: the ASCII text "F-PoC-RESEARCHv1!".
pub const ARGON2_SALT: [u8; 17] = [
    0x46, 0x2D, 0x50, 0x6F, 0x43, 0x2D, 0x52, 0x45, 0x53, 0x45, 0x41, 0x52, 0x43, 0x48, 0x76,
    0x31, 0x21,
];

/// The proof-of-work hash of `data`: Argon2id with the protocol's costs and salt.
pub open spec fn pow_hash(data: Seq<u8>) -> Seq<u8> {
    argon2id_digest(ARGON2_MEMORY_KB, ARGON2_ITERATIONS, ARGON2_PARALLELISM, data, ARGON2_SALT@)
}

/// A block header.
#[derive(Clone, Copy, Debug)]
pub struct BlockHeader {
    pub version: u32,
    pub prev_hash: Hash32,
    pub merkle_root: Hash32,
    pub timestamp: Timestamp,
    pub difficulty: Target,
    pub nonce: u64,
    pub epoch_index: u32,
}

/// The 120-byte encoding of a header: version, previous hash, merkle root,
/// timestamp, difficulty, nonce and epoch, integers little-endian.
pub open spec fn header_encoding(h: BlockHeader) -> Seq<u8> {
    spec_u32_to_le_bytes(h.version) + h.prev_hash@ + h.merkle_root@ + spec_u64_to_le_bytes(
        h.timestamp,
    ) + h.difficulty.0@ + spec_u64_to_le_bytes(h.nonce) + spec_u32_to_le_bytes(h.epoch_index)
}

pub proof fn lemma_header_encoding_len(h: BlockHeader)
    ensures
        header_encoding(h).len() == 120,
{
    lemma_auto_spec_u32_to_from_le_bytes();
    lemma_auto_spec_u64_to_from_le_bytes();
}

/// The first eight bytes of `s` read as a big-endian number.
pub open spec fn prefix_value(s: Seq<u8>) -> nat {
    be_value(s.subrange(0, 8))
}

/// The prefilter passes when the first eight bytes of SHA-256(header ‖ nonce),
/// read big-endian, are at most the first eight bytes of the target read the
/// same way: a cheap rejection of hashes above the target.
pub open spec fn prefilter_passes(header: Seq<u8>, nonce: u64, target: Target) -> bool {
    prefix_value(sha256_digest(header + spec_u64_to_le_bytes(nonce))) <= prefix_value(target.0@)
}

/// A block timestamp `ts` is acceptable at `now` when it is after the
/// median `median` of the last eleven timestamps (when there is one) and
/// less than two hours ahead of `now`.
pub open spec fn timestamp_ok(ts: Timestamp, median: Option<Timestamp>, now: Timestamp) -> bool {
    &&& match median {
        Some(m) => ts > m,
        None => true,
    }
    &&& ts < now + 7200
}

/// One cached hash: the input, its hash, and when it was computed.
pub struct CacheEntry {
    key: Vec<u8>,
    hash: Hash32,
    time: Timestamp,
}

/// A cache of proof-of-work hashes computed in the last minute, with counters.
pub struct Argon2Cache {
    entries: Vec<CacheEntry>,
    max_size: usize,
    hits: u64,
    misses: u64,
    total_time: u64,
    total_hashes: u64,
}

/// The first eight bytes of a 32-byte string, read big-endian.
fn be_prefix(b: &[u8; 32]) -> (res: u64)
    ensures
        res == prefix_value(b@),
{
    let mut v: u64 = 0;
    let mut i: usize = 0;
    proof {
        reveal_with_fuel(pow256, 8);
        assert(pow256(7) == 0x100_0000_0000_0000);
    }
    while i < 8
        invariant
            i <= 8,
            v == be_value(b@.subrange(0, i as int)),
            pow256(7) == 0x100_0000_0000_0000,
        decreases 8 - i,
    {
        proof {
            lemma_be_value_bound(b@.subrange(0, i as int));
            lemma_pow256_add(i as nat, (7 - i) as nat);
            lemma_pow256_pos((7 - i) as nat);
            let p = pow256(i as nat);
            let q = pow256((7 - i) as nat);
            assert(p <= p * q) by (nonlinear_arith)
                requires
                    q >= 1,
            ;
            assert(b@.subrange(0, i + 1).drop_last() =~= b@.subrange(0, i as int));
        }
        v = v * 256 + b[i] as u64;
        i = i + 1;
    }
    v
}

/// Whether a cache entry computed at `time` is still fresh at `now`: less
/// than a minute old. An entry stamped after `now` is not fresh.
pub open spec fn is_fresh(time: Timestamp, now: Timestamp) -> bool {
    time <= now && now - time < 60
}

/// The time each cached input was hashed at, for entries with distinct keys.
spec fn stamp_map(es: Seq<CacheEntry>) -> Map<Seq<u8>, Timestamp> {
    Map::new(
        |k: Seq<u8>| exists|i: int| 0 <= i < es.len() && (#[trigger] es[i]).key@ == k,
        |k: Seq<u8>| es[choose|i: int| 0 <= i < es.len() && (#[trigger] es[i]).key@ == k].time,
    )
}

/// The entries of `m` that are fresh at `now`.
pub open spec fn fresh_only(m: Map<Seq<u8>, Timestamp>, now: Timestamp) -> Map<Seq<u8>, Timestamp> {
    Map::new(|k: Seq<u8>| m.contains_key(k) && is_fresh(m[k], now), |k: Seq<u8>| m[k])
}

/// A counter increased by one, staying at its largest value.
pub open spec fn bumped(c: u64) -> u64 {
    if c == u64::MAX {
        c
    } else {
        (c + 1) as u64
    }
}

/// No two entries have the same key.
spec fn distinct_keys(es: Seq<CacheEntry>) -> bool {
    forall|i: int, j: int| 0 <= i < j < es.len() ==> (#[trigger] es[i]).key@ != (#[trigger] es[j]).key@
}

proof fn lemma_stamp_len(es: Seq<CacheEntry>)
    requires
        distinct_keys(es),
    ensures
        stamp_map(es).dom().finite(),
        stamp_map(es).dom().len() == es.len(),
    decreases es.len(),
{
    if es.len() == 0 {
        assert(stamp_map(es).dom() =~= Set::<Seq<u8>>::empty());
    } else {
        let p = es.drop_last();
        let e = es.last();
        assert forall|a: int, b: int| 0 <= a < b < p.len() implies (#[trigger] p[a]).key@ != (#[trigger] p[b]).key@ by {
            assert(p[a] == es[a] && p[b] == es[b]);
        }
        assert forall|j: int| 0 <= j < p.len() implies (#[trigger] p[j]).key@ != e.key@ by {
            assert(p[j] == es[j]);
            assert(es[j].key@ != es[es.len() - 1].key@);
        }
        lemma_stamp_len(p);
        lemma_stamp_push(p, e);
        assert(p.push(e) =~= es);
        assert(!stamp_map(p).dom().contains(e.key@));
    }
}

proof fn lemma_stamp_at(es: Seq<CacheEntry>, i: int)
    requires
        distinct_keys(es),
        0 <= i < es.len(),
    ensures
        stamp_map(es).contains_key(es[i].key@),
        stamp_map(es)[es[i].key@] == es[i].time,
{
    let k = es[i].key@;
    assert(0 <= i < es.len() && es[i].key@ == k);
    let c = choose|c: int| 0 <= c < es.len() && (#[trigger] es[c]).key@ == k;
    if c != i {
        if c < i {
            assert(es[c].key@ != es[i].key@);
        } else {
            assert(es[i].key@ != es[c].key@);
        }
    }
}

proof fn lemma_stamp_set(es: Seq<CacheEntry>, i: int, e: CacheEntry)
    requires
        distinct_keys(es),
        0 <= i < es.len(),
        e.key@ == es[i].key@,
    ensures
        distinct_keys(es.update(i, e)),
        stamp_map(es.update(i, e)) == stamp_map(es).insert(e.key@, e.time),
{
    let u = es.update(i, e);
    let k = e.key@;
    assert forall|a: int, b: int| 0 <= a < b < u.len() implies (#[trigger] u[a]).key@ != (#[trigger] u[b]).key@ by {
        assert(u[a].key@ == es[a].key@);
        assert(u[b].key@ == es[b].key@);
    }
    let m = stamp_map(es).insert(k, e.time);
    assert forall|x: Seq<u8>| #[trigger] stamp_map(u).dom().contains(x) == m.dom().contains(x) by {
        if exists|j: int| 0 <= j < u.len() && (#[trigger] u[j]).key@ == x {
            let j = choose|j: int| 0 <= j < u.len() && (#[trigger] u[j]).key@ == x;
            assert(es[j].key@ == x);
        }
        if exists|j: int| 0 <= j < es.len() && (#[trigger] es[j]).key@ == x {
            let j = choose|j: int| 0 <= j < es.len() && (#[trigger] es[j]).key@ == x;
            assert(u[j].key@ == x);
        }
        if x == k {
            assert(u[i].key@ == x);
        }
    }
    assert forall|x: Seq<u8>| #[trigger] stamp_map(u).dom().contains(x) implies stamp_map(u)[x] == m[x] by {
        let j = choose|j: int| 0 <= j < u.len() && (#[trigger] u[j]).key@ == x;
        if x == k {
            if j != i {
                if j < i {
                    assert(u[j].key@ != u[i].key@);
                } else {
                    assert(u[i].key@ != u[j].key@);
                }
            }
        } else {
            assert(es[j].key@ == x);
            let c = choose|c: int| 0 <= c < es.len() && (#[trigger] es[c]).key@ == x;
            if c != j {
                if c < j {
                    assert(es[c].key@ != es[j].key@);
                } else {
                    assert(es[j].key@ != es[c].key@);
                }
            }
        }
    }
    assert(stamp_map(u) =~= m);
}

proof fn lemma_stamp_push(es: Seq<CacheEntry>, e: CacheEntry)
    requires
        distinct_keys(es),
        forall|j: int| 0 <= j < es.len() ==> (#[trigger] es[j]).key@ != e.key@,
    ensures
        distinct_keys(es.push(e)),
        stamp_map(es.push(e)) == stamp_map(es).insert(e.key@, e.time),
{
    let u = es.push(e);
    let k = e.key@;
    assert forall|a: int, b: int| 0 <= a < b < u.len() implies (#[trigger] u[a]).key@ != (#[trigger] u[b]).key@ by {
        assert(u[a] == es[a]);
        if b < es.len() {
            assert(u[b] == es[b]);
        }
    }
    let m = stamp_map(es).insert(k, e.time);
    assert forall|x: Seq<u8>| #[trigger] stamp_map(u).dom().contains(x) == m.dom().contains(x) by {
        if exists|j: int| 0 <= j < u.len() && (#[trigger] u[j]).key@ == x {
            let j = choose|j: int| 0 <= j < u.len() && (#[trigger] u[j]).key@ == x;
            if j < es.len() {
                assert(es[j].key@ == x);
            }
        }
        if exists|j: int| 0 <= j < es.len() && (#[trigger] es[j]).key@ == x {
            let j = choose|j: int| 0 <= j < es.len() && (#[trigger] es[j]).key@ == x;
            assert(u[j].key@ == x);
        }
        if x == k {
            assert(u[es.len() as int].key@ == x);
        }
    }
    assert forall|x: Seq<u8>| #[trigger] stamp_map(u).dom().contains(x) implies stamp_map(u)[x] == m[x] by {
        let j = choose|j: int| 0 <= j < u.len() && (#[trigger] u[j]).key@ == x;
        if x == k {
            assert(j == es.len());
        } else {
            assert(j < es.len());
            assert(es[j].key@ == x);
            let c = choose|c: int| 0 <= c < es.len() && (#[trigger] es[c]).key@ == x;
            if c != j {
                if c < j {
                    assert(es[c].key@ != es[j].key@);
                } else {
                    assert(es[j].key@ != es[c].key@);
                }
            }
        }
    }
    assert(stamp_map(u) =~= m);
}

impl Argon2Cache {
    #[verifier::type_invariant]
    spec fn entries_hold_their_hashes(self) -> bool {
        &&& forall|i: int|
            0 <= i < self.entries@.len() ==> (#[trigger] self.entries@[i]).hash@ == pow_hash(
                self.entries@[i].key@,
            )
        &&& distinct_keys(self.entries@)
        &&& self.entries@.len() <= self.max_size
    }

    /// The largest number of entries kept.
    pub closed spec fn capacity(self) -> usize {
        self.max_size
    }

    /// The number of cached entries.
    pub closed spec fn size(self) -> nat {
        self.entries@.len()
    }

    /// When each cached input was hashed.
    pub closed spec fn stamps(self) -> Map<Seq<u8>, Timestamp> {
        stamp_map(self.entries@)
    }

    /// The hit, miss, time and hash counters.
    pub closed spec fn counters(self) -> (u64, u64, u64, u64) {
        (self.hits, self.misses, self.total_time, self.total_hashes)
    }

    /// An empty cache for up to `max_size` entries.
    pub fn new(max_size: usize) -> (res: Self)
        ensures
            res.capacity() == max_size,
            res.size() == 0,
            res.size() <= res.capacity(),
            res.stamps() == Map::<Seq<u8>, Timestamp>::empty(),
            res.counters() == (0u64, 0u64, 0u64, 0u64),
    {
        let r = Argon2Cache {
            entries: Vec::new(),
            max_size,
            hits: 0,
            misses: 0,
            total_time: 0,
            total_hashes: 0,
        };
        proof {
            assert(stamp_map(r.entries@) =~= Map::<Seq<u8>, Timestamp>::empty());
        }
        r
    }

    fn find(&self, data: &[u8]) -> (res: Option<usize>)
        ensures
            match res {
                Some(i) => i < self.entries@.len() && self.entries@[i as int].key@ == data@
                    && self.stamps().contains_key(data@) && self.stamps()[data@]
                    == self.entries@[i as int].time,
                None => !self.stamps().contains_key(data@) && forall|i: int|
                    0 <= i < self.entries@.len() ==> (#[trigger] self.entries@[i]).key@ != data@,
            },
    {
        proof {
            use_type_invariant(self);
        }
        let mut i: usize = 0;
        while i < self.entries.len()
            invariant
                distinct_keys(self.entries@),
                i <= self.entries@.len(),
                forall|j: int| 0 <= j < i ==> (#[trigger] self.entries@[j]).key@ != data@,
            decreases self.entries@.len() - i,
        {
            if bytes_equal(self.entries[i].key.as_slice(), data) {
                proof {
                    lemma_stamp_at(self.entries@, i as int);
                }
                return Some(i);
            }
            i = i + 1;
        }
        None
    }

    /// The proof-of-work hash of `data` at `now`. A result cached at most a
    /// minute earlier is returned and counted as a hit. Otherwise the hash
    /// is computed and counted as a miss and as one more hash; when the
    /// cache is at capacity, entries that are no longer fresh are dropped;
    /// then the result is cached at `now`, in place of a stale entry of the
    /// same input or, when there is room, as a new entry. The cache never
    /// holds more entries than its capacity. The counters stay at their
    /// largest value rather than wrap.
    pub fn hash(&mut self, data: &[u8], now: Timestamp) -> (res: Hash32)
        requires
            data.len() <= 0xFFFF_FFFF,
        ensures
            res@ == pow_hash(data@),
            final(self).capacity() == old(self).capacity(),
            final(self).size() <= final(self).capacity(),
            final(self).size() == final(self).stamps().dom().len(),
            ({
                let m = old(self).stamps();
                let (hits, misses, time, hashes) = old(self).counters();
                let (hits2, misses2, time2, hashes2) = final(self).counters();
                if m.contains_key(data@) && is_fresh(m[data@], now) {
                    &&& final(self).stamps() == m
                    &&& hits2 == bumped(hits)
                    &&& misses2 == misses && time2 == time && hashes2 == hashes
                } else {
                    &&& ({
                        let kept = if old(self).size() >= old(self).capacity() {
                            fresh_only(m, now)
                        } else {
                            m
                        };
                        final(self).stamps() == if kept.contains_key(data@) || kept.dom().len()
                            < old(self).capacity() {
                            kept.insert(data@, now)
                        } else {
                            kept
                        }
                    })
                    &&& hits2 == hits
                    &&& misses2 == bumped(misses)
                    &&& hashes2 == bumped(hashes)
                    &&& time2 >= time
                }
            }),
    {
        proof {
            use_type_invariant(&*self);
        }
        match self.find(data) {
            Some(i) => {
                let time = self.entries[i].time;
                if time <= now && now - time < 60 {
                    proof {
                        lemma_stamp_len(self.entries@);
                    }
                    self.hits = self.hits.saturating_add(1);
                    return self.entries[i].hash;
                }
            },
            None => {},
        }
        self.misses = self.misses.saturating_add(1);
        let start = crate::clock::start_timer();
        let computed = argon2id_hash(
            ARGON2_MEMORY_KB,
            ARGON2_ITERATIONS,
            ARGON2_PARALLELISM,
            data,
            ARGON2_SALT.as_slice(),
        );
        let output = match computed {
            Some(h) => h,
            None => {
                proof {
                    assert(false);
                }
                [0u8; 32]
            },
        };
        let ghost m0 = self.stamps();
        let ghost full = self.entries@.len() >= self.max_size;
        if self.entries.len() >= self.max_size {
            self.drop_stale(now);
        }
        let ghost m1 = self.stamps();
        proof {
            assert(m1 == if full { fresh_only(m0, now) } else { m0 });
        }
        let mut key: Vec<u8> = Vec::new();
        append_bytes(&mut key, data);
        let entry = CacheEntry { key, hash: output, time: now };
        let found = self.find(data);
        proof {
            use_type_invariant(&*self);
        }
        let mut entries: Vec<CacheEntry> = Vec::new();
        std::mem::swap(&mut entries, &mut self.entries);
        match found {
            Some(i) => {
                let ghost before = entries@;
                entries.set(i, entry);
                proof {
                    lemma_stamp_set(before, i as int, entry);
                    assert forall|j: int|
                        0 <= j < entries@.len() implies (#[trigger] entries@[j]).hash@ == pow_hash(
                        entries@[j].key@,
                    ) by {
                        if j != i {
                            assert(entries@[j] == before[j]);
                        }
                    }
                }
            },
            None => {
                proof {
                    lemma_stamp_len(entries@);
                }
                if entries.len() < self.max_size {
                    let ghost before = entries@;
                    entries.push(entry);
                    proof {
                        lemma_stamp_push(before, entry);
                    }
                }
            },
        }
        proof {
            lemma_stamp_len(entries@);
        }
        self.entries = entries;
        let elapsed = crate::clock::millis_since(&start);
        self.total_time = self.total_time.saturating_add(elapsed);
        self.total_hashes = self.total_hashes.saturating_add(1);
        output
    }

    /// Drops the entries that are no longer fresh at `now`.
    fn drop_stale(&mut self, now: Timestamp)
        ensures
            final(self).stamps() == fresh_only(old(self).stamps(), now),
            final(self).max_size == old(self).max_size,
            final(self).hits == old(self).hits,
            final(self).misses == old(self).misses,
            final(self).total_time == old(self).total_time,
            final(self).total_hashes == old(self).total_hashes,
    {
        proof {
            use_type_invariant(&*self);
        }
        let ghost all = self.entries@;
        let mut kept: Vec<CacheEntry> = Vec::new();
        let mut i: usize = 0;
        proof {
            assert(stamp_map(kept@) =~= Map::<Seq<u8>, Timestamp>::empty());
        }
        while i < self.entries.len()
            invariant
                all == self.entries@,
                distinct_keys(all),
                forall|j: int| 0 <= j < all.len() ==> (#[trigger] all[j]).hash@ == pow_hash(all[j].key@),
                i <= all.len(),
                kept@.len() <= i,
                distinct_keys(kept@),
                forall|j: int| 0 <= j < kept@.len() ==> (#[trigger] kept@[j]).hash@ == pow_hash(kept@[j].key@),
                forall|j: int| 0 <= j < kept@.len() ==> exists|k: int| 0 <= k < i && (#[trigger] kept@[j]).key@ == all[k].key@,
                forall|x: Seq<u8>| #[trigger] stamp_map(kept@).contains_key(x) == (exists|k: int|
                    0 <= k < i && all[k].key@ == x && is_fresh(all[k].time, now)),
                forall|x: Seq<u8>| #[trigger] stamp_map(kept@).contains_key(x) ==> stamp_map(kept@)[x] == stamp_map(all)[x],
            decreases all.len() - i,
        {
            let e = &self.entries[i];
            if e.time <= now && now - e.time < 60 {
                let mut key: Vec<u8> = Vec::new();
                append_bytes(&mut key, e.key.as_slice());
                let copy = CacheEntry { key, hash: e.hash, time: e.time };
                let ghost before = kept@;
                proof {
                    assert forall|j: int| 0 <= j < before.len() implies (#[trigger] before[j]).key@ != copy.key@ by {
                        let k = choose|k: int| 0 <= k < i && before[j].key@ == all[k].key@;
                        assert(all[k].key@ != all[i as int].key@);
                    }
                    lemma_stamp_push(before, copy);
                    lemma_stamp_at(all, i as int);
                }
                kept.push(copy);
                proof {
                    assert forall|j: int| 0 <= j < kept@.len() implies exists|k: int| 0 <= k < i + 1 && (#[trigger] kept@[j]).key@ == all[k].key@ by {
                        if j < before.len() {
                            assert(kept@[j] == before[j]);
                            let k = choose|k: int| 0 <= k < i && before[j].key@ == all[k].key@;
                            assert(0 <= k < i + 1 && kept@[j].key@ == all[k].key@);
                        } else {
                            assert(0 <= i < i + 1 && kept@[j].key@ == all[i as int].key@);
                        }
                    }
                    assert forall|x: Seq<u8>| #[trigger] stamp_map(kept@).contains_key(x) == (exists|k: int|
                        0 <= k < i + 1 && all[k].key@ == x && is_fresh(all[k].time, now)) by {
                        if x == all[i as int].key@ {
                            assert(0 <= i < i + 1 && all[i as int].key@ == x && is_fresh(all[i as int].time, now));
                        } else {
                            if exists|k: int| 0 <= k < i + 1 && all[k].key@ == x && is_fresh(all[k].time, now) {
                                let k = choose|k: int| 0 <= k < i + 1 && all[k].key@ == x && is_fresh(all[k].time, now);
                                assert(k != i);
                            }
                        }
                    }
                }
            } else {
                proof {
                    assert forall|x: Seq<u8>| #[trigger] stamp_map(kept@).contains_key(x) == (exists|k: int|
                        0 <= k < i + 1 && all[k].key@ == x && is_fresh(all[k].time, now)) by {
                        if exists|k: int| 0 <= k < i + 1 && all[k].key@ == x && is_fresh(all[k].time, now) {
                            let k = choose|k: int| 0 <= k < i + 1 && all[k].key@ == x && is_fresh(all[k].time, now);
                            assert(k != i);
                        }
                    }
                }
            }
            i = i + 1;
        }
        proof {
            let m = fresh_only(stamp_map(all), now);
            assert forall|x: Seq<u8>| #[trigger] stamp_map(kept@).dom().contains(x) == m.dom().contains(x) by {
                if stamp_map(kept@).contains_key(x) {
                    let k = choose|k: int| 0 <= k < i && all[k].key@ == x && is_fresh(all[k].time, now);
                    lemma_stamp_at(all, k);
                }
                if m.contains_key(x) {
                    let k = choose|k: int| 0 <= k < all.len() && (#[trigger] all[k]).key@ == x;
                    lemma_stamp_at(all, k);
                    assert(0 <= k < i && all[k].key@ == x && is_fresh(all[k].time, now));
                }
            }
            assert(stamp_map(kept@) =~= m);
        }
        self.entries = kept;
    }

    /// The hit, miss, total-milliseconds and hash counters.
    pub fn stats_counts(&self) -> (res: (u64, u64, u64, u64))
        ensures
            res == self.counters(),
    {
        (self.hits, self.misses, self.total_time, self.total_hashes)
    }

    /// The cheap check before hashing: whether SHA-256 of the header followed
    /// by the little-endian nonce passes the prefilter against `target`.
    pub fn prefilter(header: &[u8; 120], nonce: u64, target: &Target) -> (res: bool)
        ensures
            res == prefilter_passes(header@, nonce, *target),
            target.0@ == Seq::new(32, |i: int| 0xFFu8) ==> res,
    {
        let mut data: Vec<u8> = Vec::new();
        append_bytes(&mut data, header.as_slice());
        append_u64_le(&mut data, nonce);
        let hash = sha256(data.as_slice());
        let target_prefix = be_prefix(&target.0);
        let hash_prefix = be_prefix(&hash);
        proof {
            assert(data@ =~= header@ + spec_u64_to_le_bytes(nonce));
            if target.0@ == Seq::new(32, |i: int| 0xFFu8) {
                lemma_prefilter_all_ones_passes(header@, nonce, *target);
            }
        }
        hash_prefix <= target_prefix
    }
}

/// Eight bytes of 0xFF spell the largest eight-byte number.
proof fn lemma_all_ones_value(n: nat)
    ensures
        be_value(Seq::new(n, |i: int| 0xFFu8)) + 1 == pow256(n),
    decreases n,
{
    if n > 0 {
        let s = Seq::new(n, |i: int| 0xFFu8);
        assert(s.drop_last() =~= Seq::new((n - 1) as nat, |i: int| 0xFFu8));
        lemma_all_ones_value((n - 1) as nat);
    }
}

/// Among byte strings of one length, a smaller number has a prefix that is
/// no larger.
proof fn lemma_prefix_value_monotone(a: Seq<u8>, b: Seq<u8>)
    requires
        a.len() == 32,
        b.len() == 32,
        be_value(a) <= be_value(b),
    ensures
        prefix_value(a) <= prefix_value(b),
{
    lemma_be_value_split(a, 8);
    lemma_be_value_split(b, 8);
    lemma_be_value_bound(b.subrange(8, 32));
    let pa = prefix_value(a);
    let pb = prefix_value(b);
    let r = pow256(24);
    let ra = be_value(a.subrange(8, 32));
    let rb = be_value(b.subrange(8, 32));
    if pa > pb {
        assert(pb * r + rb < pa * r + ra) by (nonlinear_arith)
            requires
                pa >= pb + 1,
                rb < r,
                ra >= 0,
        ;
    }
}

/// A looser target rejects no more: whatever passes the prefilter against
/// `t1` passes it against any `t2` whose value is at least that of `t1`.
pub proof fn lemma_prefilter_looser_target(header: Seq<u8>, nonce: u64, t1: Target, t2: Target)
    requires
        be_value(t1.0@) <= be_value(t2.0@),
    ensures
        prefilter_passes(header, nonce, t1) ==> prefilter_passes(header, nonce, t2),
{
    lemma_prefix_value_monotone(t1.0@, t2.0@);
}

/// Against the all-0xFF target every 32-byte digest passes the prefilter.
proof fn lemma_prefilter_all_ones_passes(header: Seq<u8>, nonce: u64, t: Target)
    requires
        t.0@ == Seq::new(32, |i: int| 0xFFu8),
        sha256_digest(header + spec_u64_to_le_bytes(nonce)).len() == 32,
    ensures
        prefilter_passes(header, nonce, t),
{
    let d = sha256_digest(header + spec_u64_to_le_bytes(nonce));
    assert(t.0@.subrange(0, 8) =~= Seq::new(8, |i: int| 0xFFu8));
    lemma_all_ones_value(8);
    lemma_be_value_bound(d.subrange(0, 8));
}

/// An input cached at `t` stays fresh for the next minute: the entry that
/// `Argon2Cache::hash` writes on a miss (when it has room for it), whatever
/// else is kept, is found fresh by a call at any `later` with
/// `t <= later < t + 60`, which then counts a hit and returns the cached
/// hash.
pub proof fn lemma_fresh_for_a_minute(
    kept: Map<Seq<u8>, Timestamp>,
    data: Seq<u8>,
    t: Timestamp,
    later: Timestamp,
)
    requires
        t <= later,
        later - t < 60,
    ensures
        kept.insert(data, t).contains_key(data),
        is_fresh(kept.insert(data, t)[data], later),
{
}

impl BlockHeader {
    /// A version-1 header on `prev_hash` for `epoch` at `difficulty`, stamped
    /// `now`, with a zero merkle root and nonce.
    pub fn new(prev_hash: Hash32, epoch: u32, difficulty: Target, now: Timestamp) -> (res: Self)
        ensures
            res.version == 1,
            res.prev_hash == prev_hash,
            forall|i: int| 0 <= i < 32 ==> res.merkle_root@[i] == 0,
            res.timestamp == now,
            res.difficulty == difficulty,
            res.nonce == 0,
            res.epoch_index == epoch,
    {
        BlockHeader {
            version: 1,
            prev_hash,
            merkle_root: [0u8; 32],
            timestamp: now,
            difficulty,
            nonce: 0,
            epoch_index: epoch,
        }
    }

    /// The header's 120-byte encoding.
    pub fn to_bytes(&self) -> (res: [u8; 120])
        ensures
            res@ == header_encoding(*self),
    {
        let mut v: Vec<u8> = Vec::new();
        append_u32_le(&mut v, self.version);
        append_bytes(&mut v, self.prev_hash.as_slice());
        append_bytes(&mut v, self.merkle_root.as_slice());
        append_u64_le(&mut v, self.timestamp);
        append_bytes(&mut v, self.difficulty.0.as_slice());
        append_u64_le(&mut v, self.nonce);
        append_u32_le(&mut v, self.epoch_index);
        proof {
            lemma_header_encoding_len(*self);
            assert(v@ =~= header_encoding(*self));
        }
        let mut out = [0u8; 120];
        let mut i: usize = 0;
        while i < 120
            invariant
                i <= 120,
                v@.len() == 120,
                forall|j: int| 0 <= j < i ==> out@[j] == v@[j],
            decreases 120 - i,
        {
            out[i] = v[i];
            i = i + 1;
        }
        proof {
            assert(out@ =~= v@);
        }
        out
    }

    /// The proof-of-work hash of the header's encoding.
    pub fn hash(&self, argon2: &mut Argon2Cache, now: Timestamp) -> (res: Hash32)
        ensures
            res@ == pow_hash(header_encoding(*self)),
    {
        let bytes = self.to_bytes();
        argon2.hash(bytes.as_slice(), now)
    }

    /// The proof-of-work hash of the header with its nonce replaced by `nonce`.
    pub fn hash_with_nonce(&self, nonce: u64, argon2: &mut Argon2Cache, now: Timestamp) -> (res: Hash32)
        ensures
            res@ == pow_hash(header_encoding(BlockHeader { nonce, ..*self })),
    {
        let mut header = *self;
        header.nonce = nonce;
        header.hash(argon2, now)
    }

    /// Whether the header's hash meets its own difficulty.
    pub fn meets_target(&self, argon2: &mut Argon2Cache, now: Timestamp) -> (res: bool)
        ensures
            res == (crate::bignum::be_value(pow_hash(header_encoding(*self))) < crate::bignum::be_value(
                self.difficulty.0@,
            )),
    {
        let hash = self.hash(argon2, now);
        self.difficulty.is_met_by(&hash)
    }

    /// Whether the timestamp is acceptable at `now` (see `timestamp_ok`):
    /// after the median of the last eleven timestamps when there is one, and
    /// less than two hours in the future. The previous block's timestamp is
    /// not part of the rule.
    pub fn validate_timestamp(
        &self,
        _prev_timestamp: Option<Timestamp>,
        median: Option<Timestamp>,
        now: Timestamp,
    ) -> (res: bool)
        requires
            now + 7200 <= u64::MAX,
        ensures
            res == timestamp_ok(self.timestamp, median, now),
    {
        if self.timestamp >= now + 7200 {
            return false;
        }
        if let Some(m) = median {
            if self.timestamp <= m {
                return false;
            }
        }
        true
    }
}

} // verus!
