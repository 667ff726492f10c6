//! What a node keeps about one connected peer and how it reacts to the
//! peer's messages: an hourly message limit, the protocol version check,
//! heartbeats and pings, staleness, and bans.

use vstd::prelude::*;

use crate::crypto::{random_bytes32, random_u64};
use crate::encoding::arrays_equal;
use crate::types::{
    Hash32, Height, PeerId, Timestamp, MAX_BLOCKS_PER_REQUEST, MAX_MESSAGES_PER_HOUR, MAX_PEERS,
    PEER_TIMEOUT_SECS,
};

verus! {

/// The oldest protocol version accepted.
pub const MIN_VERSION: u32 = 1;

/// The newest protocol version accepted.
pub const MAX_VERSION: u32 = 1;

/// A decoded message, as far as the peer state depends on it.
pub enum Incoming {
    Heartbeat(u64),
    Pong(u64),
    Version { version: u32, height: Height, best_hash: Hash32 },
    GetBlocks { max_count: u32 },
    BanPeer { peer_id: PeerId, reason: String },
    Other,
}

/// What became of a received message: dropped, or accepted, with the nonce
/// of a pong to send back when one is owed.
pub enum Received {
    Dropped,
    Accepted { reply_pong: Option<u64> },
}

/// The state of one connection.
pub struct PeerState {
    pub peer_id: PeerId,
    pub address: String,
    pub last_message_time: Timestamp,
    pub last_heartbeat: Timestamp,
    pub last_hour_reset: Timestamp,
    pub messages_this_hour: u32,
    pub version: Option<u32>,
    pub height: Option<Height>,
    pub best_hash: Option<Hash32>,
    pub connected_at: Timestamp,
    pub messages_sent: u32,
    pub messages_received: u32,
    pub invalid_messages: u32,
    pub banned: bool,
    pub ban_reason: Option<String>,
    pub ping_nonce: Option<u64>,
    pub ping_time: Option<u64>,
}

/// The ban reason is recorded as `text`.
pub open spec fn reason_is(r: Option<String>, text: Seq<char>) -> bool {
    match r {
        Some(x) => x@ == text,
        None => false,
    }
}

/// The version check: no version yet, or one outside the accepted range.
pub open spec fn version_error(v: Option<u32>) -> Option<Seq<char>> {
    match v {
        None => Some("No version received"@),
        Some(x) => if MIN_VERSION <= x && x <= MAX_VERSION {
            None
        } else {
            Some("Incompatible version"@)
        },
    }
}

impl PeerState {
    /// A fresh connection to `address` at `now`, under a random identity.
    pub fn new(address: String, now: Timestamp) -> (res: Self)
        ensures
            res.address == address,
            res.last_message_time == now,
            res.last_heartbeat == now,
            res.last_hour_reset == now,
            res.messages_this_hour == 0,
            res.version is None,
            res.height is None,
            res.best_hash is None,
            res.connected_at == now,
            res.messages_sent == 0,
            res.messages_received == 0,
            res.invalid_messages == 0,
            !res.banned,
            res.ban_reason is None,
            res.ping_nonce is None,
            res.ping_time is None,
    {
        PeerState {
            peer_id: random_bytes32(),
            address,
            last_message_time: now,
            last_heartbeat: now,
            last_hour_reset: now,
            messages_this_hour: 0,
            version: None,
            height: None,
            best_hash: None,
            connected_at: now,
            messages_sent: 0,
            messages_received: 0,
            invalid_messages: 0,
            banned: false,
            ban_reason: None,
            ping_nonce: None,
            ping_time: None,
        }
    }

    /// Bans the peer for `reason`, unless it is banned already; whether
    /// this call banned it.
    pub fn ban(&mut self, reason: &str) -> (res: bool)
        ensures
            res == !old(self).banned,
            final(self).banned,
            res ==> reason_is(final(self).ban_reason, reason@),
            !res ==> final(self).ban_reason == old(self).ban_reason,
            final(self).peer_id == old(self).peer_id,
            final(self).address == old(self).address,
            final(self).last_message_time == old(self).last_message_time,
            final(self).last_heartbeat == old(self).last_heartbeat,
            final(self).last_hour_reset == old(self).last_hour_reset,
            final(self).messages_this_hour == old(self).messages_this_hour,
            final(self).version == old(self).version,
            final(self).height == old(self).height,
            final(self).best_hash == old(self).best_hash,
            final(self).messages_sent == old(self).messages_sent,
            final(self).messages_received == old(self).messages_received,
            final(self).invalid_messages == old(self).invalid_messages,
            final(self).ping_nonce == old(self).ping_nonce,
            final(self).ping_time == old(self).ping_time,
    {
        if self.banned {
            return false;
        }
        self.banned = true;
        self.ban_reason = Some(reason.to_string());
        true
    }

    /// Whether the peer is banned.
    pub fn is_banned(&self) -> (res: bool)
        ensures
            res == self.banned,
    {
        self.banned
    }

    /// Counts a message at `now` against the hourly limit, which restarts
    /// after an hour; at the limit the peer is banned and the message
    /// refused.
    pub fn check_rate_limit(&mut self, current_time: Timestamp) -> (res: bool)
        requires
            current_time >= old(self).last_hour_reset,
            old(self).messages_this_hour <= MAX_MESSAGES_PER_HOUR,
        ensures
            ({
                let reset = current_time - old(self).last_hour_reset > 3600;
                let count = if reset {
                    0
                } else {
                    old(self).messages_this_hour
                };
                &&& final(self).last_hour_reset == if reset {
                    current_time
                } else {
                    old(self).last_hour_reset
                }
                &&& res == (count < MAX_MESSAGES_PER_HOUR)
                &&& res ==> final(self).messages_this_hour == count + 1 && final(self).banned == old(self).banned && final(self).ban_reason == old(self).ban_reason
                &&& !res ==> final(self).messages_this_hour == count && final(self).banned && (!old(self).banned ==> reason_is(final(self).ban_reason, "Rate limit exceeded"@))
                    && (old(self).banned ==> final(self).ban_reason == old(self).ban_reason)
            }),
            final(self).messages_this_hour <= MAX_MESSAGES_PER_HOUR,
            final(self).peer_id == old(self).peer_id,
            final(self).messages_received == old(self).messages_received,
            final(self).messages_sent == old(self).messages_sent,
            final(self).invalid_messages == old(self).invalid_messages,
            final(self).last_message_time == old(self).last_message_time,
            final(self).last_heartbeat == old(self).last_heartbeat,
            final(self).version == old(self).version,
            final(self).height == old(self).height,
            final(self).best_hash == old(self).best_hash,
            final(self).ping_nonce == old(self).ping_nonce,
            final(self).ping_time == old(self).ping_time,
    {
        if current_time - self.last_hour_reset > 3600 {
            self.messages_this_hour = 0;
            self.last_hour_reset = current_time;
        }
        if self.messages_this_hour >= MAX_MESSAGES_PER_HOUR {
            proof {
                reveal_strlit("Rate limit exceeded");
            }
            self.ban("Rate limit exceeded");
            return false;
        }
        self.messages_this_hour = self.messages_this_hour + 1;
        true
    }

    /// The version check (see `version_error`).
    pub fn check_version(&self) -> (res: Result<(), &'static str>)
        ensures
            match version_error(self.version) {
                None => res is Ok,
                Some(e) => res matches Err(m) && m@ == e,
            },
    {
        match self.version {
            Some(v) => {
                if MIN_VERSION <= v && v <= MAX_VERSION {
                    Ok(())
                } else {
                    proof {
                        reveal_strlit("Incompatible version");
                    }
                    Err("Incompatible version")
                }
            },
            None => {
                proof {
                    reveal_strlit("No version received");
                }
                Err("No version received")
            },
        }
    }

    /// Whether nothing was heard from the peer for over the peer timeout.
    pub fn is_stale(&self, current_time: Timestamp) -> (res: bool)
        requires
            current_time >= self.last_message_time,
        ensures
            res == (current_time - self.last_message_time > PEER_TIMEOUT_SECS),
    {
        current_time - self.last_message_time > PEER_TIMEOUT_SECS
    }

    /// Whether the last heartbeat is over thirty seconds old.
    pub fn needs_heartbeat(&self, current_time: Timestamp) -> (res: bool)
        requires
            current_time >= self.last_heartbeat,
        ensures
            res == (current_time - self.last_heartbeat > 30),
    {
        current_time - self.last_heartbeat > 30
    }

    /// Picks a random nonce for a ping and remembers it.
    pub fn start_ping(&mut self) -> (res: u64)
        ensures
            final(self).ping_nonce == Some(res),
            *final(self) == (PeerState { ping_nonce: Some(res), ..*old(self) }),
    {
        let nonce = random_u64();
        self.ping_nonce = Some(nonce);
        nonce
    }

    /// Records a message sent at `now`, unless the peer is banned (then
    /// nothing is sent).
    pub fn on_sent(&mut self, now: Timestamp)
        requires
            !old(self).banned ==> old(self).messages_sent < u32::MAX,
        ensures
            old(self).banned ==> *final(self) == *old(self),
            !old(self).banned ==> *final(self) == (PeerState {
                messages_sent: (old(self).messages_sent + 1) as u32,
                last_message_time: now,
                ..*old(self)
            }),
    {
        if self.banned {
            return;
        }
        self.messages_sent = self.messages_sent + 1;
        self.last_message_time = now;
    }

    /// Records a message that could not be decoded.
    pub fn on_undecodable(&mut self)
        requires
            old(self).invalid_messages < u32::MAX,
        ensures
            *final(self) == (PeerState {
                invalid_messages: (old(self).invalid_messages + 1) as u32,
                ..*old(self)
            }),
    {
        self.invalid_messages = self.invalid_messages + 1;
    }

    /// Records an announced message over the size limit: it counts as
    /// invalid and the peer is banned.
    pub fn on_oversized(&mut self) -> (res: bool)
        requires
            old(self).invalid_messages < u32::MAX,
        ensures
            res == !old(self).banned,
            final(self).invalid_messages == old(self).invalid_messages + 1,
            final(self).banned,
            res ==> reason_is(final(self).ban_reason, "Message too large"@),
            !res ==> final(self).ban_reason == old(self).ban_reason,
    {
        self.invalid_messages = self.invalid_messages + 1;
        proof {
            reveal_strlit("Message too large");
        }
        self.ban("Message too large")
    }

    /// Takes a decoded message at `now`: refused by the hourly limit, or
    /// counted as received; a heartbeat owes a pong; a pong answering the
    /// pending ping records the time; a version is recorded and checked,
    /// banning the peer and dropping the message when it fails; a request
    /// for more blocks than allowed bans the peer and is dropped; a ban
    /// naming this peer bans it.
    pub fn receive(&mut self, msg: &Incoming, now: Timestamp) -> (res: Received)
        requires
            now >= old(self).last_hour_reset,
            old(self).messages_this_hour <= MAX_MESSAGES_PER_HOUR,
            old(self).messages_received < u32::MAX,
        ensures
            final(self).messages_this_hour <= MAX_MESSAGES_PER_HOUR,
            final(self).peer_id == old(self).peer_id,
            final(self).messages_sent == old(self).messages_sent,
            final(self).invalid_messages == old(self).invalid_messages,
            ({
                let reset = now - old(self).last_hour_reset > 3600;
                let count = if reset {
                    0
                } else {
                    old(self).messages_this_hour
                };
                if count >= MAX_MESSAGES_PER_HOUR {
                    &&& res is Dropped
                    &&& final(self).banned
                    &&& final(self).messages_received == old(self).messages_received
                } else {
                    &&& final(self).messages_this_hour == count + 1
                    &&& final(self).messages_received == old(self).messages_received + 1
                    &&& final(self).last_message_time == now
                    &&& match *msg {
                        Incoming::Heartbeat(n) => res == (Received::Accepted { reply_pong: Some(n) })
                            && final(self).last_heartbeat == now,
                        Incoming::Pong(n) => res == (Received::Accepted { reply_pong: None })
                            && final(self).last_heartbeat == now && final(self).ping_time == if old(self).ping_nonce == Some(n) {
                            Some(now)
                        } else {
                            old(self).ping_time
                        },
                        Incoming::Version { version, height, best_hash } => {
                            &&& final(self).version == Some(version)
                            &&& final(self).height == Some(height)
                            &&& final(self).best_hash == Some(best_hash)
                            &&& if version_error(Some(version)) is Some {
                                res is Dropped && final(self).banned
                            } else {
                                res == (Received::Accepted { reply_pong: None }) && final(self).banned
                                    == old(self).banned
                            }
                        },
                        Incoming::GetBlocks { max_count } => if max_count > MAX_BLOCKS_PER_REQUEST {
                            res is Dropped && final(self).banned
                        } else {
                            res == (Received::Accepted { reply_pong: None }) && final(self).banned
                                == old(self).banned
                        },
                        Incoming::BanPeer { peer_id, reason } => {
                            &&& res == (Received::Accepted { reply_pong: None })
                            &&& final(self).banned == (old(self).banned || peer_id == old(self).peer_id)
                            &&& (peer_id == old(self).peer_id && !old(self).banned) ==> reason_is(final(self).ban_reason, reason@)
                        },
                        Incoming::Other => res == (Received::Accepted { reply_pong: None })
                            && final(self).banned == old(self).banned,
                    }
                }
            }),
    {
        if !self.check_rate_limit(now) {
            return Received::Dropped;
        }
        self.messages_received = self.messages_received + 1;
        self.last_message_time = now;
        match msg {
            Incoming::Heartbeat(n) => {
                self.last_heartbeat = now;
                Received::Accepted { reply_pong: Some(*n) }
            },
            Incoming::Pong(n) => {
                if let Some(p) = self.ping_nonce {
                    if *n == p {
                        self.ping_time = Some(now);
                    }
                }
                self.last_heartbeat = now;
                Received::Accepted { reply_pong: None }
            },
            Incoming::Version { version, height, best_hash } => {
                self.height = Some(*height);
                self.best_hash = Some(*best_hash);
                self.version = Some(*version);
                match self.check_version() {
                    Err(e) => {
                        self.ban(e);
                        Received::Dropped
                    },
                    Ok(()) => Received::Accepted { reply_pong: None },
                }
            },
            Incoming::GetBlocks { max_count } => {
                if *max_count > MAX_BLOCKS_PER_REQUEST {
                    self.ban("Requested too many blocks");
                    return Received::Dropped;
                }
                Received::Accepted { reply_pong: None }
            },
            Incoming::BanPeer { peer_id, reason } => {
                if arrays_equal(peer_id, &self.peer_id) {
                    self.ban(reason.as_str());
                }
                Received::Accepted { reply_pong: None }
            },
            Incoming::Other => Received::Accepted { reply_pong: None },
        }
    }

    /// Records the peer's announced height and best hash at `now`.
    pub fn update_state(&mut self, height: Height, hash: Hash32, now: Timestamp)
        ensures
            *final(self) == (PeerState {
                height: Some(height),
                best_hash: Some(hash),
                last_message_time: now,
                ..*old(self)
            }),
    {
        self.height = Some(height);
        self.best_hash = Some(hash);
        self.last_message_time = now;
    }

    /// The announced height.
    pub fn get_height(&self) -> (res: Option<Height>)
        ensures
            res == self.height,
    {
        self.height
    }

    /// The announced best hash.
    pub fn get_best_hash(&self) -> (res: Option<Hash32>)
        ensures
            res == self.best_hash,
    {
        self.best_hash
    }

    /// The peer's identity.
    pub fn get_peer_id(&self) -> (res: PeerId)
        ensures
            res == self.peer_id,
    {
        self.peer_id
    }

    /// The peer's address.
    pub fn get_address(&self) -> (res: &String)
        ensures
            *res == self.address,
    {
        &self.address
    }
}

/// What a node does with an address a peer announced: it records an
/// address it neither knows nor is connected to, and also connects to it
/// while it has fewer than the most peers allowed. Whether to record it,
/// and whether to connect.
pub fn on_announced_address(known: bool, connected: bool, peer_count: usize) -> (res: (bool, bool))
    ensures
        res.0 == (!known && !connected),
        res.1 == (!known && !connected && peer_count < MAX_PEERS),
{
    let fresh = !known && !connected;
    (fresh, fresh && peer_count < MAX_PEERS)
}

} // verus!
