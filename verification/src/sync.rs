//! Chain synchronisation decisions: the peers known with their heights and
//! latencies, the session that downloads blocks from one of them, the
//! local chain of headers, and the checks a downloaded block must pass.

use vstd::prelude::*;

use crate::bignum::{be_value, lemma_be_value_injective};
use crate::chain::{chain_median, median_of, network_target_value, next_target, timestamps_of};
use crate::crypto::{ecdsa_verifies, sha256_digest};
use crate::encoding::arrays_equal;
use crate::header::{header_encoding, pow_hash, timestamp_ok, Argon2Cache, BlockHeader};
use crate::merkle::{hash_views, merkle_root, merkle_root_of};
use crate::text::{decimal_text, with_number};
use crate::tx::{txid_of, Block, Transaction};
use crate::target::Target;
use crate::types::{Hash32, Height, PeerId, Timestamp, MAX_BLOCKS_PER_REQUEST, SYNC_TIMEOUT_SECS};
use crate::wallet::Wallet;

verus! {

/// A peer to synchronise from.
pub struct SyncPeer {
    pub peer_id: PeerId,
    pub address: String,
    pub height: Height,
    pub best_hash: Hash32,
    pub latency_ms: u64,
    pub last_sync_time: Timestamp,
    pub retries: u32,
    pub banned: bool,
}

/// Where a sync session stands.
pub enum SyncStatus {
    Idle,
    Requesting,
    Receiving,
    Verifying,
    Completed,
    Failed(String),
}

/// A download of blocks from one peer.
pub struct SyncSession {
    pub peer_id: PeerId,
    pub from_height: Height,
    pub target_height: Height,
    pub current_height: Height,
    pub started_at: Timestamp,
    pub last_activity: Timestamp,
    pub blocks_received: u32,
    pub status: SyncStatus,
}

/// The index of peer `id` in `ps`, when there is one.
pub open spec fn has_peer(ps: Seq<SyncPeer>, id: PeerId) -> bool {
    exists|i: int| 0 <= i < ps.len() && (#[trigger] ps[i]).peer_id == id
}

/// The index of peer `id` in `ps` (meaningful when `has_peer`).
pub open spec fn peer_index(ps: Seq<SyncPeer>, id: PeerId) -> int {
    choose|i: int| 0 <= i < ps.len() && (#[trigger] ps[i]).peer_id == id
}

/// No two peers share an identity.
pub open spec fn distinct_peers(ps: Seq<SyncPeer>) -> bool {
    forall|i: int, j: int| 0 <= i < j < ps.len() ==> (#[trigger] ps[i]).peer_id != (#[trigger] ps[j]).peer_id
}

/// The peers after news of peer `id` at `now`: a known peer gets the new
/// height, best hash, latency and time; an unknown one is added, with no
/// retries and not banned.
pub open spec fn peers_updated(
    ps: Seq<SyncPeer>,
    id: PeerId,
    address: String,
    height: Height,
    best_hash: Hash32,
    latency_ms: u64,
    now: Timestamp,
) -> Seq<SyncPeer> {
    if has_peer(ps, id) {
        let i = peer_index(ps, id);
        ps.update(
            i,
            SyncPeer { height, best_hash, latency_ms, last_sync_time: now, ..ps[i] },
        )
    } else {
        ps.push(
            SyncPeer {
                peer_id: id,
                address,
                height,
                best_hash,
                latency_ms,
                last_sync_time: now,
                retries: 0,
                banned: false,
            },
        )
    }
}

/// The peers without peer `id`.
pub open spec fn peers_without(ps: Seq<SyncPeer>, id: PeerId) -> Seq<SyncPeer> {
    if has_peer(ps, id) {
        ps.remove(peer_index(ps, id))
    } else {
        ps
    }
}

/// The largest height among peers that are not banned, if any.
pub open spec fn best_height(ps: Seq<SyncPeer>) -> Option<Height>
    decreases ps.len(),
{
    if ps.len() == 0 {
        None
    } else {
        let rest = best_height(ps.drop_last());
        let p = ps.last();
        if p.banned {
            rest
        } else {
            match rest {
                None => Some(p.height),
                Some(h) => Some(if p.height > h { p.height } else { h }),
            }
        }
    }
}

/// A peer worth syncing from at local height `current`: not banned and ahead.
pub open spec fn ahead(p: SyncPeer, current: Height) -> bool {
    !p.banned && p.height > current
}

/// Peer `a` scores no more than peer `b`: the heights they are ahead by,
/// each divided by its latency plus one, compare so.
pub open spec fn score_le(a: SyncPeer, b: SyncPeer, current: Height) -> bool {
    (a.height - current) * (b.latency_ms + 1) <= (b.height - current) * (a.latency_ms + 1)
}

/// The height to which the map `m` sends the hashes of `headers`, the
/// first of them stored at height `first`.
pub open spec fn with_header_hashes(m: Map<Seq<u8>, Height>, headers: Seq<BlockHeader>, first: int) -> Map<
    Seq<u8>,
    Height,
>
    decreases headers.len(),
{
    if headers.len() == 0 {
        m
    } else {
        with_header_hashes(m, headers.drop_last(), first).insert(
            pow_hash(header_encoding(headers.last())),
            (first + headers.len() - 1) as Height,
        )
    }
}

/// The headers of a sequence of blocks.
pub open spec fn headers_of(blocks: Seq<Block>) -> Seq<BlockHeader> {
    blocks.map_values(|b: Block| b.header)
}

/// A downloaded block is acceptable on top of the headers `chain` at
/// `now` (see `block_check`): there is a header below it, it names that
/// header's hash, it names the network target and its hash is below it,
/// its timestamp is acceptable against the median of the chain's last
/// eleven timestamps, it carries the merkle root of its transactions, and
/// its signature, when it has one and a public key, verifies.
#[verifier::opaque]
pub open spec fn block_acceptable(chain: Seq<BlockHeader>, b: Block, now: Timestamp) -> bool {
    block_check(b, 0, chain, now) is Ok
}

/// Every block of a batch is acceptable on top of the local chain followed
/// by the blocks of the batch before it.
pub open spec fn batch_valid(chain: Seq<BlockHeader>, blocks: Seq<Block>, now: Timestamp) -> bool {
    forall|k: int|
        0 <= k < blocks.len() ==> block_acceptable(
            chain + headers_of(blocks.subrange(0, k)),
            #[trigger] blocks[k],
            now,
        )
}

/// The map that a sequence of hash and height pairs with distinct hashes holds.
pub open spec fn pairs_map(s: Seq<(Hash32, Height)>) -> Map<Seq<u8>, Height> {
    Map::new(
        |k: Seq<u8>| exists|i: int| 0 <= i < s.len() && (#[trigger] s[i]).0@ == k,
        |k: Seq<u8>| s[choose|i: int| 0 <= i < s.len() && (#[trigger] s[i]).0@ == k].1,
    )
}

/// No two pairs share a hash.
pub open spec fn distinct_keys(s: Seq<(Hash32, Height)>) -> bool {
    forall|i: int, j: int| 0 <= i < j < s.len() ==> (#[trigger] s[i]).0@ != (#[trigger] s[j]).0@
}

/// The synchronisation state.
pub struct SyncManager {
    peers: Vec<SyncPeer>,
    active_session: Option<SyncSession>,
    local_chain: Vec<BlockHeader>,
    local_hashes: Vec<(Hash32, Height)>,
    sync_in_progress: bool,
    last_sync_attempt: Timestamp,
}

impl SyncManager {
    /// The known peers, in the order first heard of.
    pub closed spec fn peer_list(&self) -> Seq<SyncPeer> {
        self.peers@
    }

    /// The current or last session, if any.
    pub closed spec fn session(&self) -> Option<SyncSession> {
        self.active_session
    }

    /// The local chain of headers.
    pub closed spec fn chain(&self) -> Seq<BlockHeader> {
        self.local_chain@
    }

    /// The height of each known block hash.
    pub closed spec fn hash_heights(&self) -> Map<Seq<u8>, Height> {
        pairs_map(self.local_hashes@)
    }

    /// Whether a session is downloading.
    pub closed spec fn syncing(&self) -> bool {
        self.sync_in_progress
    }

    /// The local chain's height: its number of headers.
    pub closed spec fn height(&self) -> Height {
        self.local_chain@.len() as Height
    }

    /// When a session was last started.
    pub closed spec fn last_attempt(&self) -> Timestamp {
        self.last_sync_attempt
    }

    /// One entry per peer and per block hash.
    pub closed spec fn wf(&self) -> bool {
        &&& distinct_peers(self.peers@)
        &&& distinct_keys(self.local_hashes@)
    }

    /// No peers, no session, an empty chain.
    pub fn new() -> (res: Self)
        ensures
            res.wf(),
            res.peer_list().len() == 0,
            res.session() is None,
            res.chain().len() == 0,
            res.hash_heights() == Map::<Seq<u8>, Height>::empty(),
            !res.syncing(),
            res.last_attempt() == 0,
    {
        let r = SyncManager {
            peers: Vec::new(),
            active_session: None,
            local_chain: Vec::new(),
            local_hashes: Vec::new(),
            sync_in_progress: false,
            last_sync_attempt: 0,
        };
        proof {
            assert(r.hash_heights() =~= Map::<Seq<u8>, Height>::empty());
        }
        r
    }

    /// Replaces the local chain and its hash heights.
    pub fn set_chain(&mut self, chain: Vec<BlockHeader>, hashes: Vec<(Hash32, Height)>)
        requires
            old(self).wf(),
            distinct_keys(hashes@),
        ensures
            final(self).wf(),
            final(self).chain() == chain@,
            final(self).hash_heights() == pairs_map(hashes@),
            final(self).peer_list() == old(self).peer_list(),
            final(self).session() == old(self).session(),
            final(self).syncing() == old(self).syncing(),
            final(self).last_attempt() == old(self).last_attempt(),
    {
        self.local_chain = chain;
        self.local_hashes = hashes;
    }

    fn find_peer(&self, id: &PeerId) -> (res: Option<usize>)
        requires
            self.wf(),
        ensures
            match res {
                Some(i) => i < self.peers@.len() && self.peers@[i as int].peer_id == *id && has_peer(
                    self.peers@,
                    *id,
                ) && peer_index(self.peers@, *id) == i,
                None => !has_peer(self.peers@, *id),
            },
    {
        let mut i: usize = 0;
        while i < self.peers.len()
            invariant
                self.wf(),
                i <= self.peers@.len(),
                forall|j: int| 0 <= j < i ==> (#[trigger] self.peers@[j]).peer_id != *id,
            decreases self.peers@.len() - i,
        {
            if arrays_equal(&self.peers[i].peer_id, id) {
                proof {
                    let ps = self.peers@;
                    assert(0 <= i < ps.len() && ps[i as int].peer_id == *id);
                    let c = peer_index(ps, *id);
                    if c != i {
                        if c < i {
                            assert(ps[c].peer_id != ps[i as int].peer_id);
                        } else {
                            assert(ps[i as int].peer_id != ps[c].peer_id);
                        }
                    }
                }
                return Some(i);
            }
            i = i + 1;
        }
        None
    }

    /// Records news of a peer at `now` (see `peers_updated`).
    pub fn update_peer(
        &mut self,
        peer_id: PeerId,
        address: String,
        height: Height,
        best_hash: Hash32,
        latency_ms: u64,
        now: Timestamp,
    )
        requires
            old(self).wf(),
        ensures
            final(self).wf(),
            final(self).peer_list() == peers_updated(
                old(self).peer_list(),
                peer_id,
                address,
                height,
                best_hash,
                latency_ms,
                now,
            ),
            final(self).session() == old(self).session(),
            final(self).chain() == old(self).chain(),
            final(self).hash_heights() == old(self).hash_heights(),
            final(self).syncing() == old(self).syncing(),
            final(self).last_attempt() == old(self).last_attempt(),
    {
        let ghost ps = self.peers@;
        match self.find_peer(&peer_id) {
            Some(i) => {
                self.peers[i].height = height;
                self.peers[i].best_hash = best_hash;
                self.peers[i].latency_ms = latency_ms;
                self.peers[i].last_sync_time = now;
                proof {
                    assert(self.peers@ =~= ps.update(
                        i as int,
                        SyncPeer { height, best_hash, latency_ms, last_sync_time: now, ..ps[i as int] },
                    ));
                    assert forall|a: int, b: int| 0 <= a < b < self.peers@.len() implies (
                    #[trigger] self.peers@[a]).peer_id != (#[trigger] self.peers@[b]).peer_id by {
                        assert(self.peers@[a].peer_id == ps[a].peer_id);
                        assert(self.peers@[b].peer_id == ps[b].peer_id);
                    }
                }
            },
            None => {
                self.peers.push(
                    SyncPeer {
                        peer_id,
                        address,
                        height,
                        best_hash,
                        latency_ms,
                        last_sync_time: now,
                        retries: 0,
                        banned: false,
                    },
                );
                proof {
                    assert forall|a: int, b: int| 0 <= a < b < self.peers@.len() implies (
                    #[trigger] self.peers@[a]).peer_id != (#[trigger] self.peers@[b]).peer_id by {
                        if b == ps.len() {
                            assert(self.peers@[a] == ps[a]);
                        } else {
                            assert(self.peers@[a] == ps[a] && self.peers@[b] == ps[b]);
                        }
                    }
                }
            },
        }
    }

    /// Forgets a peer.
    pub fn remove_peer(&mut self, peer_id: &PeerId)
        requires
            old(self).wf(),
        ensures
            final(self).wf(),
            final(self).peer_list() == peers_without(old(self).peer_list(), *peer_id),
            final(self).session() == old(self).session(),
            final(self).chain() == old(self).chain(),
            final(self).hash_heights() == old(self).hash_heights(),
            final(self).syncing() == old(self).syncing(),
            final(self).last_attempt() == old(self).last_attempt(),
    {
        let ghost ps = self.peers@;
        match self.find_peer(peer_id) {
            Some(i) => {
                self.peers.remove(i);
                proof {
                    let r = self.peers@;
                    assert forall|a: int, b: int| 0 <= a < b < r.len() implies (#[trigger] r[a]).peer_id
                        != (#[trigger] r[b]).peer_id by {
                        let a2 = if a < i { a } else { a + 1 };
                        let b2 = if b < i { b } else { b + 1 };
                        assert(r[a] == ps[a2]);
                        assert(r[b] == ps[b2]);
                    }
                }
            },
            None => {},
        }
    }

    /// The largest height among peers that are not banned, if any.
    pub fn best_peer_height(&self) -> (res: Option<Height>)
        ensures
            res == best_height(self.peer_list()),
    {
        let ghost ps = self.peers@;
        let mut best: Option<Height> = None;
        let mut i: usize = 0;
        proof {
            assert(ps.subrange(0, 0) =~= Seq::<SyncPeer>::empty());
        }
        while i < self.peers.len()
            invariant
                ps == self.peers@,
                i <= ps.len(),
                best == best_height(ps.subrange(0, i as int)),
            decreases ps.len() - i,
        {
            proof {
                assert(ps.subrange(0, i + 1).drop_last() =~= ps.subrange(0, i as int));
                assert(ps.subrange(0, i + 1).last() == ps[i as int]);
            }
            if !self.peers[i].banned {
                let h = self.peers[i].height;
                best = match best {
                    None => Some(h),
                    Some(b) => Some(if h > b { h } else { b }),
                };
            }
            i = i + 1;
        }
        proof {
            assert(ps.subrange(0, i as int) =~= ps);
        }
        best
    }

    /// The local chain's height.
    pub fn current_height(&self) -> (res: Height)
        ensures
            res == self.height(),
    {
        self.local_chain.len() as Height
    }

    /// Whether a session is downloading.
    pub fn is_syncing(&self) -> (res: bool)
        ensures
            res == self.syncing(),
    {
        self.sync_in_progress
    }

    /// The current or last session.
    pub fn active_session(&self) -> (res: &Option<SyncSession>)
        ensures
            *res == self.session(),
    {
        &self.active_session
    }

    /// Whether to start a session at `now`: some peer that is not banned is
    /// ahead, and no session was made or the last attempt is over a minute
    /// old.
    pub fn needs_sync(&self, now: Timestamp) -> (res: bool)
        requires
            now >= self.last_attempt(),
        ensures
            res == ({
                let current = self.height();
                let best = match best_height(self.peer_list()) {
                    Some(h) => h,
                    None => current,
                };
                best > current && (self.session() is None || now - self.last_attempt() > SYNC_TIMEOUT_SECS)
            }),
    {
        let current = self.current_height();
        let best = match self.best_peer_height() {
            Some(h) => h,
            None => current,
        };
        let timed_out = now - self.last_sync_attempt > SYNC_TIMEOUT_SECS;
        best > current && (self.active_session.is_none() || timed_out)
    }

    /// A peer to sync from: one that is not banned, is ahead, and has the
    /// best ratio of how far ahead it is to its latency plus one; none when
    /// no peer is ahead.
    pub fn best_peer(&self) -> (res: Option<SyncPeer>)
        ensures
            ({
                let ps = self.peer_list();
                let current = self.height();
                match res {
                    None => forall|j: int| 0 <= j < ps.len() ==> !ahead(#[trigger] ps[j], current),
                    Some(p) => {
                        &&& exists|j: int| 0 <= j < ps.len() && #[trigger] ps[j] == p
                        &&& ahead(p, current)
                        &&& forall|j: int| 0 <= j < ps.len() && ahead(#[trigger] ps[j], current) ==> score_le(ps[j], p, current)
                    },
                }
            }),
    {
        let ghost ps = self.peers@;
        let current = self.current_height();
        let mut best: Option<usize> = None;
        let mut i: usize = 0;
        while i < self.peers.len()
            invariant
                ps == self.peers@,
                current == self.height(),
                i <= ps.len(),
                match best {
                    None => forall|j: int| 0 <= j < i ==> !ahead(#[trigger] ps[j], current),
                    Some(b) => b < i && ahead(ps[b as int], current) && forall|j: int|
                        0 <= j < i && ahead(#[trigger] ps[j], current) ==> score_le(ps[j], ps[b as int], current),
                },
            decreases ps.len() - i,
        {
            let p = &self.peers[i];
            if !p.banned && p.height > current {
                match best {
                    None => {
                        best = Some(i);
                    },
                    Some(b) => {
                        let q = &self.peers[b];
                        let mine: u128 = score_times(q.height - current, p.latency_ms);
                        let theirs: u128 = score_times(p.height - current, q.latency_ms);
                        if mine <= theirs {
                            proof {
                                assert forall|j: int| 0 <= j < i + 1 && ahead(#[trigger] ps[j], current) implies score_le(
                                    ps[j],
                                    ps[i as int],
                                    current,
                                ) by {
                                    if j < i {
                                        lemma_score_trans(ps[j], ps[b as int], ps[i as int], current);
                                    }
                                }
                            }
                            best = Some(i);
                        }
                    },
                }
            }
            i = i + 1;
        }
        match best {
            None => None,
            Some(b) => {
                let q = &self.peers[b];
                let copy = SyncPeer {
                    peer_id: q.peer_id,
                    address: q.address.clone(),
                    height: q.height,
                    best_hash: q.best_hash,
                    latency_ms: q.latency_ms,
                    last_sync_time: q.last_sync_time,
                    retries: q.retries,
                    banned: q.banned,
                };
                proof {
                    assert(ps[b as int] == copy);
                }
                Some(copy)
            },
        }
    }

    /// The peer to sync from, with its height and latency: among peers that
    /// are not banned and are ahead, the first with the least latency; when
    /// none is ahead, the last with the greatest height among those not
    /// banned; none when every peer is banned.
    pub fn select_best_peer(&self) -> (res: Option<(PeerId, Height, u64)>)
        ensures
            res is None ==> forall|j: int|
                0 <= j < self.peer_list().len() ==> (#[trigger] self.peer_list()[j]).banned,
            res is Some ==> exists|j: int| #[trigger] selected_at(self.peer_list(), self.height(), j, res.unwrap()),
    {
        let ghost ps = self.peers@;
        let current = self.current_height();
        let mut fastest: Option<usize> = None;
        let mut i: usize = 0;
        while i < self.peers.len()
            invariant
                ps == self.peers@,
                current == self.height(),
                i <= ps.len(),
                match fastest {
                    None => forall|j: int| 0 <= j < i ==> !ahead(#[trigger] ps[j], current),
                    Some(b) => b < i && ahead(ps[b as int], current) && forall|j: int|
                        0 <= j < i && ahead(#[trigger] ps[j], current) ==> ps[b as int].latency_ms <= ps[j].latency_ms,
                },
            decreases ps.len() - i,
        {
            let p = &self.peers[i];
            if !p.banned && p.height > current {
                match fastest {
                    None => {
                        fastest = Some(i);
                    },
                    Some(b) => {
                        if p.latency_ms < self.peers[b].latency_ms {
                            fastest = Some(i);
                        }
                    },
                }
            }
            i = i + 1;
        }
        if let Some(b) = fastest {
            let q = &self.peers[b];
            proof {
                assert(ps[b as int].peer_id == q.peer_id);
                assert(any_ahead(ps, current));
            }
            let r = Some((q.peer_id, q.height, q.latency_ms));
            proof {
                assert(selected_at(self.peer_list(), self.height(), b as int, r.unwrap()));
            }
            return r;
        }
        let mut tallest: Option<usize> = None;
        let mut k: usize = 0;
        while k < self.peers.len()
            invariant
                ps == self.peers@,
                current == self.height(),
                forall|j: int| 0 <= j < ps.len() ==> !ahead(#[trigger] ps[j], current),
                k <= ps.len(),
                match tallest {
                    None => forall|j: int| 0 <= j < k ==> (#[trigger] ps[j]).banned,
                    Some(b) => b < k && !ps[b as int].banned && forall|j: int|
                        0 <= j < k && !(#[trigger] ps[j]).banned ==> ps[j].height <= ps[b as int].height,
                },
            decreases ps.len() - k,
        {
            let p = &self.peers[k];
            if !p.banned {
                match tallest {
                    None => {
                        tallest = Some(k);
                    },
                    Some(b) => {
                        if p.height >= self.peers[b].height {
                            tallest = Some(k);
                        }
                    },
                }
            }
            k = k + 1;
        }
        match tallest {
            None => {
                proof {
                    assert(k == ps.len());
                    assert(forall|j: int| 0 <= j < ps.len() ==> (#[trigger] ps[j]).banned);
                    assert(ps == self.peer_list());
                }
                None
            },
            Some(b) => {
                let q = &self.peers[b];
                let r = Some((q.peer_id, q.height, q.latency_ms));
                proof {
                    assert(ps[b as int].peer_id == q.peer_id);
                    assert(!any_ahead(ps, current));
                    assert(selected_at(self.peer_list(), self.height(), b as int, r.unwrap()));
                }
                r
            },
        }
    }

    fn insert_hash(&mut self, hash: Hash32, height: Height)
        requires
            old(self).wf(),
        ensures
            final(self).wf(),
            final(self).hash_heights() == old(self).hash_heights().insert(hash@, height),
            final(self).peer_list() == old(self).peer_list(),
            final(self).session() == old(self).session(),
            final(self).chain() == old(self).chain(),
            final(self).syncing() == old(self).syncing(),
            final(self).last_attempt() == old(self).last_attempt(),
    {
        let ghost s = self.local_hashes@;
        let mut i: usize = 0;
        while i < self.local_hashes.len()
            invariant
                s == self.local_hashes@,
                s == old(self).local_hashes@,
                self.wf(),
                self.peers@ == old(self).peers@,
                self.active_session == old(self).active_session,
                self.local_chain@ == old(self).local_chain@,
                self.sync_in_progress == old(self).sync_in_progress,
                self.last_sync_attempt == old(self).last_sync_attempt,
                i <= s.len(),
                forall|j: int| 0 <= j < i ==> (#[trigger] s[j]).0@ != hash@,
            decreases s.len() - i,
        {
            if arrays_equal(&self.local_hashes[i].0, &hash) {
                self.local_hashes.set(i, (hash, height));
                proof {
                    lemma_pairs_update(s, i as int, hash, height);
                }
                return;
            }
            i = i + 1;
        }
        self.local_hashes.push((hash, height));
        proof {
            lemma_pairs_push(s, hash, height);
        }
    }

    /// Starts a session with `peer` at `now`, unless one is downloading or
    /// the peer is not ahead; whether it started.
    pub fn start_sync(&mut self, peer: SyncPeer, now: Timestamp) -> (res: bool)
        requires
            old(self).wf(),
        ensures
            final(self).wf(),
            res == (!old(self).syncing() && peer.height > old(self).height()),
            res ==> final(self).session() == Some(
                SyncSession {
                    peer_id: peer.peer_id,
                    from_height: old(self).height(),
                    target_height: peer.height,
                    current_height: old(self).height(),
                    started_at: now,
                    last_activity: now,
                    blocks_received: 0,
                    status: SyncStatus::Requesting,
                },
            ) && final(self).syncing() && final(self).last_attempt() == now,
            !res ==> final(self).session() == old(self).session() && final(self).syncing() == old(self).syncing() && final(self).last_attempt() == old(self).last_attempt(),
            final(self).peer_list() == old(self).peer_list(),
            final(self).chain() == old(self).chain(),
            final(self).hash_heights() == old(self).hash_heights(),
    {
        if self.sync_in_progress {
            return false;
        }
        let current = self.current_height();
        if peer.height <= current {
            return false;
        }
        self.active_session = Some(
            SyncSession {
                peer_id: peer.peer_id,
                from_height: current,
                target_height: peer.height,
                current_height: current,
                started_at: now,
                last_activity: now,
                blocks_received: 0,
                status: SyncStatus::Requesting,
            },
        );
        self.sync_in_progress = true;
        self.last_sync_attempt = now;
        true
    }

    /// The proof-of-work hashes of a batch whose blocks are all acceptable
    /// on top of `chain` and the blocks before them (see `batch_valid`);
    /// none otherwise.
    #[verifier::rlimit(40)]
    fn check_batch(chain: &Vec<BlockHeader>, blocks: &[Block], now: Timestamp) -> (res: Option<Vec<Hash32>>)
        requires
            now + 7200 <= u64::MAX,
        ensures
            res is Some <==> batch_valid(chain@, blocks@, now),
            res matches Some(hs) ==> hs@.len() == blocks@.len() && forall|k: int|
                0 <= k < blocks@.len() ==> (#[trigger] hs@[k])@ == pow_hash(header_encoding(blocks@[k].header)),
    {
        let mut argon2 = Argon2Cache::new(100);
        let mut work: Vec<BlockHeader> = Vec::new();
        let mut i: usize = 0;
        while i < chain.len()
            invariant
                i <= chain@.len(),
                work@ == chain@.subrange(0, i as int),
            decreases chain@.len() - i,
        {
            work.push(chain[i]);
            proof {
                assert(work@ =~= chain@.subrange(0, i + 1));
            }
            i = i + 1;
        }
        proof {
            assert(work@ =~= chain@ + headers_of(blocks@.subrange(0, 0)));
        }
        let mut hashes: Vec<Hash32> = Vec::new();
        let mut j: usize = 0;
        while j < blocks.len()
            invariant
                j <= blocks@.len(),
                now + 7200 <= u64::MAX,
                work@ == chain@ + headers_of(blocks@.subrange(0, j as int)),
                hashes@.len() == j,
                forall|k: int| 0 <= k < j ==> (#[trigger] hashes@[k])@ == pow_hash(header_encoding(blocks@[k].header)),
                forall|k: int|
                    0 <= k < j ==> block_acceptable(
                        chain@ + headers_of(blocks@.subrange(0, k)),
                        #[trigger] blocks@[k],
                        now,
                    ),
            decreases blocks@.len() - j,
        {
            let b = &blocks[j];
            let checked = Self::check_block(b, 0, &work, &mut argon2, now);
            proof {
                lemma_block_check_ok_any_height(*b, 0, work@, now);
            }
            let hash = match checked {
                Ok(h) => h,
                Err(_) => {
                    return None;
                },
            };
            let ghost before = hashes@;
            hashes.push(hash);
            work.push(b.header);
            proof {
                let p = blocks@.subrange(0, j as int);
                let p1 = blocks@.subrange(0, j + 1);
                assert(p1 =~= p.push(blocks@[j as int]));
                assert(headers_of(p1) =~= headers_of(p).push(blocks@[j as int].header));
                assert(work@ =~= chain@ + headers_of(p1));
                assert forall|k: int| 0 <= k < j + 1 implies (#[trigger] hashes@[k])@ == pow_hash(
                    header_encoding(blocks@[k].header),
                ) by {
                    if k < j {
                        assert(hashes@[k] == before[k]);
                    }
                }
            }
            j = j + 1;
        }
        Some(hashes)
    }

    /// Takes blocks that peer `peer_id` sent at `now` for the session: an
    /// error without a session or from another peer; an empty batch
    /// completes the session; a batch with a block that fails the block
    /// checks on top of the local chain and the blocks before it (see
    /// `batch_valid`) is refused with nothing changed; otherwise the headers
    /// join the local chain,
    /// their hashes are recorded at their heights, and the session advances
    /// (see `session_after`), ending the download once complete. The
    /// session's height afterwards.
    pub fn on_blocks_received(&mut self, blocks: &[Block], peer_id: &PeerId, now: Timestamp) -> (res:
        Result<Height, String>)
        requires
            old(self).wf(),
            now + 7200 <= u64::MAX,
            match old(self).session() {
                Some(s) => s.peer_id == *peer_id ==> s.blocks_received + blocks@.len() <= u32::MAX
                    && s.current_height + blocks@.len() <= u64::MAX,
                None => true,
            },
        ensures
            final(self).wf(),
            final(self).peer_list() == old(self).peer_list(),
            final(self).last_attempt() == old(self).last_attempt(),
            match old(self).session() {
                None => (res matches Err(e) && e@ == "No active sync session"@) && final(self).session()
                    == old(self).session() && final(self).syncing() == old(self).syncing()
                    && final(self).chain() == old(self).chain() && final(self).hash_heights() == old(self).hash_heights(),
                Some(s) => if s.peer_id != *peer_id {
                    (res matches Err(e) && e@ == "Wrong peer"@) && final(self).session() == old(self).session() && final(self).syncing() == old(self).syncing() && final(self).chain()
                        == old(self).chain() && final(self).hash_heights() == old(self).hash_heights()
                } else if blocks@.len() == 0 {
                    res == Ok::<Height, String>(s.current_height) && final(self).session() == Some(
                        SyncSession { status: SyncStatus::Completed, ..s },
                    ) && !final(self).syncing() && final(self).chain() == old(self).chain()
                        && final(self).hash_heights() == old(self).hash_heights()
                } else if !batch_valid(old(self).chain(), blocks@, now) {
                    (res matches Err(e) && e@ == "Invalid block in batch"@) && final(self).session()
                        == old(self).session() && final(self).syncing() == old(self).syncing()
                        && final(self).chain() == old(self).chain() && final(self).hash_heights()
                        == old(self).hash_heights()
                } else {
                    let s2 = session_after(s, blocks@.len(), now);
                    &&& res == Ok::<Height, String>(s2.current_height)
                    &&& final(self).session() == Some(s2)
                    &&& final(self).syncing() == (old(self).syncing() && s2.current_height
                        < s2.target_height)
                    &&& final(self).chain() == old(self).chain() + headers_of(blocks@)
                    &&& final(self).hash_heights() == with_header_hashes(
                        old(self).hash_heights(),
                        headers_of(blocks@),
                        s.current_height + 1,
                    )
                },
            },
    {
        let s = match &self.active_session {
            None => {
                return Err("No active sync session".to_string());
            },
            Some(s) => s,
        };
        if !arrays_equal(&s.peer_id, peer_id) {
            return Err("Wrong peer".to_string());
        }
        let peer = s.peer_id;
        let from_height = s.from_height;
        let target = s.target_height;
        let started = s.started_at;
        let received = s.blocks_received;
        let start = s.current_height;
        let activity = s.last_activity;
        if blocks.len() == 0 {
            self.active_session = Some(
                SyncSession {
                    peer_id: peer,
                    from_height,
                    target_height: target,
                    current_height: start,
                    started_at: started,
                    last_activity: activity,
                    blocks_received: received,
                    status: SyncStatus::Completed,
                },
            );
            self.sync_in_progress = false;
            return Ok(start);
        }
        let hashes = match Self::check_batch(&self.local_chain, blocks, now) {
            Some(h) => h,
            None => {
                proof {
                    reveal_strlit("Invalid block in batch");
                }
                return Err("Invalid block in batch".to_string());
            },
        };
        let ghost chain0 = self.local_chain@;
        let ghost map0 = self.hash_heights();
        let mut current = start;
        let mut k: usize = 0;
        while k < blocks.len()
            invariant
                self.wf(),
                k <= blocks@.len(),
                current == start + k,
                start + blocks@.len() <= u64::MAX,
                hashes@.len() == blocks@.len(),
                forall|i: int| 0 <= i < blocks@.len() ==> (#[trigger] hashes@[i])@ == pow_hash(header_encoding(blocks@[i].header)),
                self.local_chain@ == chain0 + headers_of(blocks@.subrange(0, k as int)),
                self.hash_heights() == with_header_hashes(
                    map0,
                    headers_of(blocks@.subrange(0, k as int)),
                    start + 1,
                ),
                self.peers@ == old(self).peers@,
                self.active_session == old(self).active_session,
                self.sync_in_progress == old(self).sync_in_progress,
                self.last_sync_attempt == old(self).last_sync_attempt,
            decreases blocks@.len() - k,
        {
            current = current + 1;
            let header = blocks[k].header;
            self.local_chain.push(header);
            let hash = hashes[k];
            self.insert_hash(hash, current);
            proof {
                let hs = headers_of(blocks@.subrange(0, k + 1));
                assert(hs.drop_last() =~= headers_of(blocks@.subrange(0, k as int)));
                assert(hs.last() == header);
                assert(self.local_chain@ =~= chain0 + hs);
            }
            k = k + 1;
        }
        proof {
            assert(blocks@.subrange(0, k as int) =~= blocks@);
        }
        let done = current >= target;
        self.active_session = Some(
            SyncSession {
                peer_id: peer,
                from_height,
                target_height: target,
                current_height: current,
                started_at: started,
                last_activity: now,
                blocks_received: received + blocks.len() as u32,
                status: if done {
                    SyncStatus::Completed
                } else {
                    SyncStatus::Requesting
                },
            },
        );
        if done {
            self.sync_in_progress = false;
        }
        Ok(current)
    }

    /// At `now`, fails a session whose last activity is over a minute old:
    /// its peer gets one more retry, and is banned at three; the download
    /// ends. The peer of the failed session, if any.
    pub fn check_timeouts(&mut self, now: Timestamp) -> (res: Option<PeerId>)
        requires
            old(self).wf(),
            match old(self).session() {
                Some(s) => now >= s.last_activity && (has_peer(old(self).peer_list(), s.peer_id)
                    ==> old(self).peer_list()[peer_index(old(self).peer_list(), s.peer_id)].retries
                    < u32::MAX),
                None => true,
            },
        ensures
            final(self).wf(),
            final(self).chain() == old(self).chain(),
            final(self).hash_heights() == old(self).hash_heights(),
            final(self).last_attempt() == old(self).last_attempt(),
            match old(self).session() {
                Some(s) => if now - s.last_activity > SYNC_TIMEOUT_SECS {
                    &&& res == Some(s.peer_id)
                    &&& match final(self).session() {
                        Some(f) => f == (SyncSession { status: f.status, ..s }) && match f.status {
                            SyncStatus::Failed(m) => m@ == "Timeout"@,
                            _ => false,
                        },
                        None => false,
                    }
                    &&& !final(self).syncing()
                    &&& final(self).peer_list() == if has_peer(old(self).peer_list(), s.peer_id) {
                        let ps = old(self).peer_list();
                        let i = peer_index(ps, s.peer_id);
                        let r = (ps[i].retries + 1) as u32;
                        ps.update(i, SyncPeer { retries: r, banned: ps[i].banned || r >= 3, ..ps[i] })
                    } else {
                        old(self).peer_list()
                    }
                } else {
                    res is None && final(self).session() == old(self).session() && final(self).syncing()
                        == old(self).syncing() && final(self).peer_list() == old(self).peer_list()
                },
                None => res is None && final(self).session() == old(self).session()
                    && final(self).syncing() == old(self).syncing() && final(self).peer_list() == old(self).peer_list(),
            },
    {
        let s = match &self.active_session {
            None => {
                return None;
            },
            Some(s) => s,
        };
        if now - s.last_activity <= SYNC_TIMEOUT_SECS {
            return None;
        }
        let failed = SyncSession {
            peer_id: s.peer_id,
            from_height: s.from_height,
            target_height: s.target_height,
            current_height: s.current_height,
            started_at: s.started_at,
            last_activity: s.last_activity,
            blocks_received: s.blocks_received,
            status: SyncStatus::Failed("Timeout".to_string()),
        };
        let peer_id = s.peer_id;
        self.active_session = Some(failed);
        let ghost ps = self.peers@;
        match self.find_peer(&peer_id) {
            Some(i) => {
                let r = self.peers[i].retries + 1;
                self.peers[i].retries = r;
                if r >= 3 {
                    self.peers[i].banned = true;
                }
                proof {
                    assert forall|a: int, b: int| 0 <= a < b < self.peers@.len() implies (
                    #[trigger] self.peers@[a]).peer_id != (#[trigger] self.peers@[b]).peer_id by {
                        assert(self.peers@[a].peer_id == ps[a].peer_id);
                        assert(self.peers@[b].peer_id == ps[b].peer_id);
                    }
                    assert(self.peers@ =~= ps.update(
                        i as int,
                        SyncPeer { retries: r, banned: ps[i as int].banned || r >= 3, ..ps[i as int] },
                    ));
                }
            },
            None => {},
        }
        self.sync_in_progress = false;
        Some(peer_id)
    }

    /// How many blocks to ask peer `peer_id` for, from height `from` up to
    /// `to`: their difference, at most the request limit. An error when the
    /// peer is unknown or banned.
    pub fn request_blocks(&self, peer_id: &PeerId, from: Height, to: Height) -> (res: Result<u32, String>)
        requires
            self.wf(),
            has_peer(self.peer_list(), *peer_id) && !self.peer_list()[peer_index(
                self.peer_list(),
                *peer_id,
            )].banned ==> from <= to,
        ensures
            !has_peer(self.peer_list(), *peer_id) ==> (res matches Err(e) && e@ == "Peer not found"@),
            has_peer(self.peer_list(), *peer_id) ==> if self.peer_list()[peer_index(
                self.peer_list(),
                *peer_id,
            )].banned {
                (res matches Err(e) && e@ == "Peer is banned"@)
            } else {
                res == Ok::<u32, String>(
                    if to - from < MAX_BLOCKS_PER_REQUEST {
                        (to - from) as u32
                    } else {
                        MAX_BLOCKS_PER_REQUEST
                    },
                )
            },
    {
        match self.find_peer(peer_id) {
            None => Err("Peer not found".to_string()),
            Some(i) => {
                if self.peers[i].banned {
                    return Err("Peer is banned".to_string());
                }
                let span = to - from;
                if span < MAX_BLOCKS_PER_REQUEST as u64 {
                    Ok(span as u32)
                } else {
                    Ok(MAX_BLOCKS_PER_REQUEST)
                }
            },
        }
    }

    /// The merkle root of a block's transactions (see `tx_merkle_root`).
    pub fn compute_merkle_root(txs: &[Transaction], argon2: &mut Argon2Cache) -> (res: Hash32)
        ensures
            res@ == tx_merkle_root(txs@),
    {
        if txs.len() == 0 {
            let zero = [0u8; 32];
            proof {
                assert(zero@ =~= Seq::new(32, |i: int| 0u8));
            }
            return zero;
        }
        let mut ids: Vec<Hash32> = Vec::new();
        let mut i: usize = 0;
        while i < txs.len()
            invariant
                i <= txs@.len(),
                hash_views(ids@) == txids_of(txs@.subrange(0, i as int)),
            decreases txs@.len() - i,
        {
            let id = txs[i].txid(argon2);
            let ghost before = ids@;
            ids.push(id);
            proof {
                let p = txs@.subrange(0, i as int);
                let p1 = txs@.subrange(0, i + 1);
                assert(p1 =~= p.push(txs@[i as int]));
                assert(txids_of(p1) =~= txids_of(p).push(txid_of(txs@[i as int])));
                assert(ids@ == before.push(id));
                assert(hash_views(ids@) =~= hash_views(before).push(id@));
            }
            i = i + 1;
        }
        proof {
            assert(txs@.subrange(0, i as int) =~= txs@);
        }
        merkle_root(ids)
    }

    /// Checks a downloaded block for height `height` at `now` on top of the
    /// headers `chain` (see `block_check`): its hash when it passes, else
    /// the first failed check.
    pub fn check_block(
        block: &Block,
        height: Height,
        chain: &Vec<BlockHeader>,
        argon2: &mut Argon2Cache,
        now: Timestamp,
    ) -> (res: Result<Hash32, String>)
        requires
            now + 7200 <= u64::MAX,
        ensures
            match block_check(*block, height, chain@, now) {
                Ok(h) => res matches Ok(r) && r@ == h,
                Err(e) => res matches Err(r) && r@ == e,
            },
            res is Ok <==> {
                &&& chain@.len() > 0
                &&& block.header.prev_hash@ == pow_hash(header_encoding(chain@.last()))
                &&& be_value(block.header.difficulty.0@) == network_target_value(chain@)
                &&& be_value(pow_hash(header_encoding(block.header))) < network_target_value(chain@)
                &&& timestamp_ok(block.header.timestamp, median_of(timestamps_of(chain@)), now)
                &&& block.header.merkle_root@ == tx_merkle_root(block.transactions@)
                &&& match (block.signature, block.pubkey) {
                    (Some(sig), Some(pk)) => (pk@.len() == 33 || pk@.len() == 65) && ecdsa_verifies(
                        pk@,
                        sig@,
                        sha256_digest(pow_hash(header_encoding(block.header))),
                    ),
                    _ => true,
                }
            },
            res matches Ok(r) ==> r@ == pow_hash(header_encoding(block.header)),
    {
        let n = chain.len();
        if n == 0 {
            return Err("Previous block not found".to_string());
        }
        let below = chain[n - 1];
        let expected_prev = below.hash(argon2, now);
        if !arrays_equal(&block.header.prev_hash, &expected_prev) {
            return Err(with_number("Invalid prev_hash at height ", height));
        }
        let target = next_target(chain);
        if !arrays_equal(&block.header.difficulty.0, &target.0) {
            proof {
                if be_value(block.header.difficulty.0@) == be_value(target.0@) {
                    lemma_be_value_injective(block.header.difficulty.0@, target.0@);
                }
            }
            return Err(with_number("Wrong difficulty at height ", height));
        }
        let block_hash = block.header.hash(argon2, now);
        if !target.is_met_by(&block_hash) {
            return Err(with_number("Block hash doesn't meet difficulty at height ", height));
        }
        let median = chain_median(chain);
        if !block.header.validate_timestamp(None, median, now) {
            return Err(with_number("Invalid timestamp at height ", height));
        }
        let root = Self::compute_merkle_root(block.transactions.as_slice(), argon2);
        if !arrays_equal(&block.header.merkle_root, &root) {
            return Err(with_number("Invalid merkle root at height ", height));
        }
        match (&block.signature, &block.pubkey) {
            (Some(sig), Some(pk)) => {
                if !Wallet::verify_signature(pk.as_slice(), sig.as_slice(), block_hash.as_slice()) {
                    return Err(with_number("Invalid block signature at height ", height));
                }
            },
            _ => {},
        }
        Ok(block_hash)
    }

    /// Adds an accepted block's header to the local chain, its hash at `height`.
    pub fn accept_block(&mut self, header: BlockHeader, hash: Hash32, height: Height)
        requires
            old(self).wf(),
        ensures
            final(self).wf(),
            final(self).chain() == old(self).chain().push(header),
            final(self).hash_heights() == old(self).hash_heights().insert(hash@, height),
            final(self).peer_list() == old(self).peer_list(),
            final(self).session() == old(self).session(),
            final(self).syncing() == old(self).syncing(),
            final(self).last_attempt() == old(self).last_attempt(),
    {
        self.local_chain.push(header);
        self.insert_hash(hash, height);
    }

    /// Starts a session at `now` with the peer `select_best_peer` picks,
    /// from the height after the local one up to the peer's, unless one is
    /// downloading or the picked peer is not ahead; whether it started.
    /// It never fails.
    pub fn start_active_sync(&mut self, now: Timestamp) -> (res: Result<bool, String>)
        requires
            old(self).wf(),
            old(self).height() < u64::MAX,
        ensures
            final(self).wf(),
            res is Ok,
            final(self).peer_list() == old(self).peer_list(),
            final(self).chain() == old(self).chain(),
            final(self).hash_heights() == old(self).hash_heights(),
            old(self).syncing() ==> res == Ok::<bool, String>(false) && final(self).session() == old(self).session() && final(self).syncing() && final(self).last_attempt() == old(self).last_attempt(),
            res == Ok::<bool, String>(true) ==> !old(self).syncing() && final(self).syncing()
                && final(self).last_attempt() == now && (exists|j: int|
                #![trigger old(self).peer_list()[j]]
                0 <= j < old(self).peer_list().len() && ahead(old(self).peer_list()[j], old(self).height())
                    && final(self).session() == Some(
                    SyncSession {
                        peer_id: old(self).peer_list()[j].peer_id,
                        from_height: (old(self).height() + 1) as Height,
                        target_height: old(self).peer_list()[j].height,
                        current_height: old(self).height(),
                        started_at: now,
                        last_activity: now,
                        blocks_received: 0,
                        status: SyncStatus::Requesting,
                    },
                ) && forall|k: int|
                    0 <= k < old(self).peer_list().len() && ahead(#[trigger] old(self).peer_list()[k], old(self).height())
                        ==> old(self).peer_list()[j].latency_ms <= old(self).peer_list()[k].latency_ms),
            res == Ok::<bool, String>(false) ==> final(self).session() == old(self).session()
                && final(self).syncing() == old(self).syncing() && final(self).last_attempt() == old(self).last_attempt() && (!old(self).syncing() ==> !any_ahead(old(self).peer_list(), old(self).height())),
    {
        if self.sync_in_progress {
            return Ok(false);
        }
        let current = self.current_height();
        match self.select_best_peer() {
            None => {
                proof {
                    let ps = self.peer_list();
                    if any_ahead(ps, current) {
                        let k = choose|k: int| 0 <= k < ps.len() && ahead(#[trigger] ps[k], current);
                        assert(ps[k].banned);
                    }
                }
                Ok(false)
            },
            Some((peer_id, peer_height, latency)) => {
                let ghost choice = (peer_id, peer_height, latency);
                proof {
                    let j = choose|j: int| #[trigger] selected_at(self.peer_list(), self.height(), j, choice);
                    assert(selected_at(self.peer_list(), self.height(), j, choice));
                }
                if peer_height <= current {
                    proof {
                        let j = choose|j: int| #[trigger] selected_at(self.peer_list(), self.height(), j, choice);
                        assert(!any_ahead(self.peer_list(), current));
                    }
                    return Ok(false);
                }
                self.active_session = Some(
                    SyncSession {
                        peer_id,
                        from_height: current + 1,
                        target_height: peer_height,
                        current_height: current,
                        started_at: now,
                        last_activity: now,
                        blocks_received: 0,
                        status: SyncStatus::Requesting,
                    },
                );
                self.sync_in_progress = true;
                self.last_sync_attempt = now;
                proof {
                    let ps = old(self).peer_list();
                    let j = choose|j: int| #[trigger] selected_at(ps, current, j, choice);
                    assert(selected_at(ps, current, j, choice));
                    assert(any_ahead(ps, current));
                    assert(ahead(ps[j], current));
                }
                Ok(true)
            },
        }
    }

}

/// The session after `n` more blocks arrived at `now`: counted, the
/// current height raised by `n`, and complete once it reaches the target,
/// else requesting again.
pub open spec fn session_after(s: SyncSession, n: nat, now: Timestamp) -> SyncSession {
    let h = (s.current_height + n) as Height;
    SyncSession {
        blocks_received: (s.blocks_received + n) as u32,
        last_activity: now,
        current_height: h,
        status: if h >= s.target_height {
            SyncStatus::Completed
        } else {
            SyncStatus::Requesting
        },
        ..s
    }
}

/// The ids of a sequence of transactions.
pub open spec fn txids_of(txs: Seq<Transaction>) -> Seq<Seq<u8>> {
    txs.map_values(|t: Transaction| txid_of(t))
}

/// The merkle root of a block's transactions: 32 zero bytes when there are none.
pub open spec fn tx_merkle_root(txs: Seq<Transaction>) -> Seq<u8> {
    if txs.len() == 0 {
        Seq::new(32, |i: int| 0u8)
    } else {
        merkle_root_of(txids_of(txs))
    }
}

/// `text` followed by the decimal height.
pub open spec fn at_height(text: Seq<char>, h: Height) -> Seq<char> {
    text + decimal_text(h as nat)
}

/// The checks of a downloaded block for height `h` on top of the headers
/// `chain` at `now`, in order: the chain must hold the header below it; the
/// block must name that header's proof-of-work hash, name the network
/// target (see `network_target_value`), have a hash below that target, have
/// an acceptable timestamp (see `timestamp_ok`, with the median of the
/// chain's last eleven timestamps), carry the merkle root of its
/// transactions, and, with both a signature and a public key, carry a
/// signature over the SHA-256 of its hash that verifies. Its hash when all
/// pass.
pub open spec fn block_check(block: Block, h: Height, chain: Seq<BlockHeader>, now: Timestamp) -> Result<
    Seq<u8>,
    Seq<char>,
> {
    if chain.len() == 0 {
        Err("Previous block not found"@)
    } else {
        let hash = pow_hash(header_encoding(block.header));
        let target = network_target_value(chain);
        if block.header.prev_hash@ != pow_hash(header_encoding(chain.last())) {
            Err(at_height("Invalid prev_hash at height "@, h))
        } else if be_value(block.header.difficulty.0@) != target {
            Err(at_height("Wrong difficulty at height "@, h))
        } else if !(be_value(hash) < target) {
            Err(at_height("Block hash doesn't meet difficulty at height "@, h))
        } else if !timestamp_ok(block.header.timestamp, median_of(timestamps_of(chain)), now) {
            Err(at_height("Invalid timestamp at height "@, h))
        } else if block.header.merkle_root@ != tx_merkle_root(block.transactions@) {
            Err(at_height("Invalid merkle root at height "@, h))
        } else if (match (block.signature, block.pubkey) {
            (Some(sig), Some(pk)) => !((pk@.len() == 33 || pk@.len() == 65) && ecdsa_verifies(
                pk@,
                sig@,
                sha256_digest(hash),
            )),
            _ => false,
        }) {
            Err(at_height("Invalid block signature at height "@, h))
        } else {
            Ok(hash)
        }
    }
}

/// A downloaded block is acceptable on top of `chain` at `now` exactly when
/// the chain has a last header, the block names that header's hash, names
/// the network target and has a hash below it, has an acceptable timestamp,
/// carries the merkle root of its transactions, and its signature, when it
/// has one and a public key, verifies over the SHA-256 of its hash.
pub proof fn lemma_block_acceptable_exactly(chain: Seq<BlockHeader>, block: Block, now: Timestamp)
    ensures
        block_acceptable(chain, block, now) <==> {
            &&& chain.len() > 0
            &&& block.header.prev_hash@ == pow_hash(header_encoding(chain.last()))
            &&& be_value(block.header.difficulty.0@) == network_target_value(chain)
            &&& be_value(pow_hash(header_encoding(block.header))) < network_target_value(chain)
            &&& timestamp_ok(block.header.timestamp, median_of(timestamps_of(chain)), now)
            &&& block.header.merkle_root@ == tx_merkle_root(block.transactions@)
            &&& match (block.signature, block.pubkey) {
                (Some(sig), Some(pk)) => (pk@.len() == 33 || pk@.len() == 65) && ecdsa_verifies(
                    pk@,
                    sig@,
                    sha256_digest(pow_hash(header_encoding(block.header))),
                ),
                _ => true,
            }
        },
{
    reveal(block_acceptable);
}

/// Whether a block passes the checks does not depend on the height named in
/// the messages.
proof fn lemma_block_check_ok_any_height(block: Block, h: Height, chain: Seq<BlockHeader>, now: Timestamp)
    ensures
        (block_check(block, h, chain, now) is Ok) == block_acceptable(chain, block, now),
{
    reveal(block_acceptable);
}

/// Some peer is ahead of local height `current`.
pub open spec fn any_ahead(ps: Seq<SyncPeer>, current: Height) -> bool {
    exists|k: int| 0 <= k < ps.len() && ahead(#[trigger] ps[k], current)
}

/// Peer `j` of `ps` is the one `select_best_peer` may pick, with identity
/// `id`, height `h` and latency `l`: not banned; when some peer is ahead,
/// ahead with the least latency; else with the greatest height.
pub open spec fn selected_at(ps: Seq<SyncPeer>, current: Height, j: int, choice: (PeerId, Height, u64)) -> bool {
    let (id, h, l) = choice;
    &&& 0 <= j < ps.len()
    &&& ps[j].peer_id == id
    &&& ps[j].height == h
    &&& ps[j].latency_ms == l
    &&& !ps[j].banned
    &&& any_ahead(ps, current) ==> ahead(ps[j], current) && forall|k: int|
        0 <= k < ps.len() && ahead(#[trigger] ps[k], current) ==> l <= ps[k].latency_ms
    &&& !any_ahead(ps, current) ==> forall|k: int|
        0 <= k < ps.len() && !(#[trigger] ps[k]).banned ==> ps[k].height <= h
}

proof fn lemma_pairs_update(s: Seq<(Hash32, Height)>, i: int, k: Hash32, v: Height)
    requires
        distinct_keys(s),
        0 <= i < s.len(),
        s[i].0@ == k@,
    ensures
        distinct_keys(s.update(i, (k, v))),
        pairs_map(s.update(i, (k, v))) == pairs_map(s).insert(k@, v),
{
    let u = s.update(i, (k, v));
    assert forall|a: int, b: int| 0 <= a < b < u.len() implies (#[trigger] u[a]).0@ != (#[trigger] u[b]).0@ by {
        assert(u[a].0@ == s[a].0@);
        assert(u[b].0@ == s[b].0@);
    }
    let m = pairs_map(s).insert(k@, v);
    assert forall|x: Seq<u8>| #[trigger] pairs_map(u).dom().contains(x) == m.dom().contains(x) by {
        if exists|j: int| 0 <= j < u.len() && (#[trigger] u[j]).0@ == x {
            let j = choose|j: int| 0 <= j < u.len() && (#[trigger] u[j]).0@ == x;
            assert(s[j].0@ == x);
        }
        if exists|j: int| 0 <= j < s.len() && (#[trigger] s[j]).0@ == x {
            let j = choose|j: int| 0 <= j < s.len() && (#[trigger] s[j]).0@ == x;
            assert(u[j].0@ == x);
        }
        if x == k@ {
            assert(u[i].0@ == x);
        }
    }
    assert forall|x: Seq<u8>| #[trigger] pairs_map(u).dom().contains(x) implies pairs_map(u)[x] == m[x] by {
        let j = choose|j: int| 0 <= j < u.len() && (#[trigger] u[j]).0@ == x;
        if x == k@ {
            if j != i {
                if j < i {
                    assert(u[j].0@ != u[i].0@);
                } else {
                    assert(u[i].0@ != u[j].0@);
                }
            }
        } else {
            assert(s[j].0@ == x);
            let c = choose|c: int| 0 <= c < s.len() && (#[trigger] s[c]).0@ == x;
            if c != j {
                if c < j {
                    assert(s[c].0@ != s[j].0@);
                } else {
                    assert(s[j].0@ != s[c].0@);
                }
            }
        }
    }
    assert(pairs_map(u) =~= m);
}

proof fn lemma_pairs_push(s: Seq<(Hash32, Height)>, k: Hash32, v: Height)
    requires
        distinct_keys(s),
        forall|j: int| 0 <= j < s.len() ==> (#[trigger] s[j]).0@ != k@,
    ensures
        distinct_keys(s.push((k, v))),
        pairs_map(s.push((k, v))) == pairs_map(s).insert(k@, v),
{
    let u = s.push((k, v));
    assert forall|a: int, b: int| 0 <= a < b < u.len() implies (#[trigger] u[a]).0@ != (#[trigger] u[b]).0@ by {
        assert(u[a] == s[a]);
        if b < s.len() {
            assert(u[b] == s[b]);
        }
    }
    let m = pairs_map(s).insert(k@, v);
    assert forall|x: Seq<u8>| #[trigger] pairs_map(u).dom().contains(x) == m.dom().contains(x) by {
        if exists|j: int| 0 <= j < u.len() && (#[trigger] u[j]).0@ == x {
            let j = choose|j: int| 0 <= j < u.len() && (#[trigger] u[j]).0@ == x;
            if j < s.len() {
                assert(s[j].0@ == x);
            }
        }
        if exists|j: int| 0 <= j < s.len() && (#[trigger] s[j]).0@ == x {
            let j = choose|j: int| 0 <= j < s.len() && (#[trigger] s[j]).0@ == x;
            assert(u[j].0@ == x);
        }
        if x == k@ {
            assert(u[s.len() as int].0@ == x);
        }
    }
    assert forall|x: Seq<u8>| #[trigger] pairs_map(u).dom().contains(x) implies pairs_map(u)[x] == m[x] by {
        let j = choose|j: int| 0 <= j < u.len() && (#[trigger] u[j]).0@ == x;
        if x == k@ {
            assert(j == s.len());
        } else {
            assert(j < s.len());
            assert(s[j].0@ == x);
            let c = choose|c: int| 0 <= c < s.len() && (#[trigger] s[c]).0@ == x;
            if c != j {
                if c < j {
                    assert(s[c].0@ != s[j].0@);
                } else {
                    assert(s[j].0@ != s[c].0@);
                }
            }
        }
    }
    assert(pairs_map(u) =~= m);
}

/// `ahead_by` times `latency + 1`, which fits in 128 bits.
fn score_times(ahead_by: u64, latency: u64) -> (res: u128)
    ensures
        res == ahead_by * (latency + 1),
{
    let a = ahead_by as u128;
    let l = latency as u128 + 1;
    assert(a * l <= 0xFFFF_FFFF_FFFF_FFFF * 0x1_0000_0000_0000_0000) by (nonlinear_arith)
        requires
            a <= 0xFFFF_FFFF_FFFF_FFFF,
            l <= 0x1_0000_0000_0000_0000,
    ;
    a * l
}

proof fn lemma_score_trans(a: SyncPeer, b: SyncPeer, c: SyncPeer, current: Height)
    requires
        ahead(a, current),
        ahead(b, current),
        ahead(c, current),
        score_le(a, b, current),
        score_le(b, c, current),
    ensures
        score_le(a, c, current),
{
    let xa = a.height - current;
    let xb = b.height - current;
    let xc = c.height - current;
    let ya = a.latency_ms + 1;
    let yb = b.latency_ms + 1;
    let yc = c.latency_ms + 1;
    assert(xa * yc <= xc * ya) by (nonlinear_arith)
        requires
            xa > 0,
            xb > 0,
            xc > 0,
            ya > 0,
            yb > 0,
            yc > 0,
            xa * yb <= xb * ya,
            xb * yc <= xc * yb,
    {
        assert(xa * yb * yc <= xb * ya * yc);
        assert(xb * yc * ya <= xc * yb * ya);
        assert(xa * yc * yb <= xc * ya * yb);
    }
}

} // verus!
