//! Protection against floods of requests and connections, per remote
//! address: hourly and per-minute request limits, a per-minute connection
//! limit, failure counts, a blacklist and a whitelist, and a stricter
//! attack mode. Addresses are compared by their text.

use vstd::prelude::*;

use crate::types::Timestamp;

verus! {

/// Request counts of one address.
#[derive(Clone, Copy, Debug)]
pub struct RateLimit {
    pub requests: u32,
    pub last_hour: Timestamp,
    pub last_minute: Timestamp,
    pub minute_requests: u32,
}

/// Connection counts of one address.
#[derive(Clone, Copy, Debug)]
pub struct ConnectionLimit {
    pub connections: u32,
    pub last_reset: Timestamp,
    pub failures: u32,
}

/// The texts a sequence of strings holds.
pub open spec fn text_set(s: Seq<String>) -> Set<Seq<char>> {
    Set::new(|k: Seq<char>| exists|i: int| 0 <= i < s.len() && (#[trigger] s[i])@ == k)
}

/// No two strings have the same text.
pub open spec fn distinct_texts(s: Seq<String>) -> bool {
    forall|i: int, j: int| 0 <= i < j < s.len() ==> (#[trigger] s[i])@ != (#[trigger] s[j])@
}

/// The map a table of text keys holds.
pub open spec fn table<V>(s: Seq<(String, V)>) -> Map<Seq<char>, V> {
    Map::new(
        |k: Seq<char>| exists|i: int| 0 <= i < s.len() && (#[trigger] s[i]).0@ == k,
        |k: Seq<char>| s[choose|i: int| 0 <= i < s.len() && (#[trigger] s[i]).0@ == k].1,
    )
}

/// No two rows of a table have the same key.
pub open spec fn distinct_rows<V>(s: Seq<(String, V)>) -> bool {
    forall|i: int, j: int| 0 <= i < j < s.len() ==> (#[trigger] s[i]).0@ != (#[trigger] s[j]).0@
}

/// The request limits after a request from an address at `now`: the
/// hourly count restarts after an hour, the minute count after a minute,
/// and both count the request. An address without counts starts at `now`.
pub open spec fn counted_request(r: Option<RateLimit>, now: Timestamp) -> RateLimit {
    let r0 = match r {
        Some(x) => x,
        None => RateLimit { requests: 0, last_hour: now, last_minute: now, minute_requests: 0 },
    };
    let r1 = if now - r0.last_hour > 3600 {
        RateLimit { requests: 0, last_hour: now, ..r0 }
    } else {
        r0
    };
    let r2 = if now - r1.last_minute > 60 {
        RateLimit { minute_requests: 0, last_minute: now, ..r1 }
    } else {
        r1
    };
    RateLimit {
        requests: (r2.requests + 1) as u32,
        minute_requests: (r2.minute_requests + 1) as u32,
        ..r2
    }
}

/// Counting a request at `now`: a new address starts one request in a
/// fresh hour and minute; otherwise the hourly count restarts at one when
/// more than an hour has passed since its hour began and grows by one
/// otherwise, and likewise the minute count with a minute.
pub proof fn lemma_counted_request_windows(r: Option<RateLimit>, now: Timestamp)
    requires
        r matches Some(o) ==> o.requests < u32::MAX && o.minute_requests < u32::MAX,
    ensures
        r is None ==> counted_request(r, now) == (RateLimit {
            requests: 1,
            last_hour: now,
            last_minute: now,
            minute_requests: 1,
        }),
        r matches Some(o) ==> {
            let n = counted_request(r, now);
            &&& now - o.last_hour > 3600 ==> n.requests == 1 && n.last_hour == now
            &&& now - o.last_hour <= 3600 ==> n.requests == o.requests + 1 && n.last_hour == o.last_hour
            &&& now - o.last_minute > 60 ==> n.minute_requests == 1 && n.last_minute == now
            &&& now - o.last_minute <= 60 ==> n.minute_requests == o.minute_requests + 1
                && n.last_minute == o.last_minute
        },
{
}

/// The hourly request limit.
pub open spec fn hourly_limit(attack: bool) -> u32 {
    if attack {
        100
    } else {
        1000
    }
}

/// The per-minute request limit.
pub open spec fn minute_limit(attack: bool) -> u32 {
    if attack {
        10
    } else {
        100
    }
}

/// The connection limit per minute.
pub open spec fn connection_limit(attack: bool) -> u32 {
    if attack {
        5
    } else {
        50
    }
}

/// The connection counts of an address at `now` before a connection is
/// counted: new ones start at `now`, and the count restarts after a minute.
pub open spec fn refreshed_connections(c: Option<ConnectionLimit>, now: Timestamp) -> ConnectionLimit {
    let c0 = match c {
        Some(x) => x,
        None => ConnectionLimit { connections: 0, last_reset: now, failures: 0 },
    };
    if now - c0.last_reset > 60 {
        ConnectionLimit { connections: 0, last_reset: now, ..c0 }
    } else {
        c0
    }
}

/// The value at `k`, if any.
pub open spec fn lookup<V>(m: Map<Seq<char>, V>, k: Seq<char>) -> Option<V> {
    if m.contains_key(k) {
        Some(m[k])
    } else {
        None
    }
}

/// The flood protection state.
pub struct DDoSProtection {
    ip_blacklist: Vec<String>,
    ip_whitelist: Vec<String>,
    rate_limits: Vec<(String, RateLimit)>,
    connection_limits: Vec<(String, ConnectionLimit)>,
    global_request_count: u64,
    last_reset: Timestamp,
    attack_mode: bool,
}

fn find_text(s: &Vec<String>, k: &String) -> (res: Option<usize>)
    ensures
        match res {
            Some(i) => i < s@.len() && s@[i as int]@ == k@,
            None => !text_set(s@).contains(k@),
        },
{
    let mut i: usize = 0;
    while i < s.len()
        invariant
            i <= s@.len(),
            forall|j: int| 0 <= j < i ==> (#[trigger] s@[j])@ != k@,
        decreases s@.len() - i,
    {
        if s[i] == *k {
            return Some(i);
        }
        i = i + 1;
    }
    None
}

fn find_row<V>(s: &Vec<(String, V)>, k: &String) -> (res: Option<usize>)
    requires
        distinct_rows(s@),
    ensures
        match res {
            Some(i) => i < s@.len() && s@[i as int].0@ == k@ && table(s@).contains_key(k@)
                && table(s@)[k@] == s@[i as int].1,
            None => !table(s@).contains_key(k@) && forall|j: int|
                0 <= j < s@.len() ==> (#[trigger] s@[j]).0@ != k@,
        },
{
    let mut i: usize = 0;
    while i < s.len()
        invariant
            distinct_rows(s@),
            i <= s@.len(),
            forall|j: int| 0 <= j < i ==> (#[trigger] s@[j]).0@ != k@,
        decreases s@.len() - i,
    {
        if s[i].0 == *k {
            proof {
                lemma_row_at(s@, i as int);
            }
            return Some(i);
        }
        i = i + 1;
    }
    None
}

proof fn lemma_row_at<V>(s: Seq<(String, V)>, i: int)
    requires
        distinct_rows(s),
        0 <= i < s.len(),
    ensures
        table(s).contains_key(s[i].0@),
        table(s)[s[i].0@] == s[i].1,
{
    let k = s[i].0@;
    assert(0 <= i < s.len() && s[i].0@ == k);
    let c = choose|c: int| 0 <= c < s.len() && (#[trigger] s[c]).0@ == k;
    if c != i {
        if c < i {
            assert(s[c].0@ != s[i].0@);
        } else {
            assert(s[i].0@ != s[c].0@);
        }
    }
}

proof fn lemma_row_set<V>(s: Seq<(String, V)>, i: int, v: V)
    requires
        distinct_rows(s),
        0 <= i < s.len(),
    ensures
        distinct_rows(s.update(i, (s[i].0, v))),
        table(s.update(i, (s[i].0, v))) == table(s).insert(s[i].0@, v),
{
    let u = s.update(i, (s[i].0, v));
    let k = s[i].0@;
    assert forall|a: int, b: int| 0 <= a < b < u.len() implies (#[trigger] u[a]).0@ != (#[trigger] u[b]).0@ by {
        assert(u[a].0@ == s[a].0@);
        assert(u[b].0@ == s[b].0@);
    }
    let m = table(s).insert(k, v);
    assert forall|x: Seq<char>| #[trigger] table(u).dom().contains(x) == m.dom().contains(x) by {
        if exists|j: int| 0 <= j < u.len() && (#[trigger] u[j]).0@ == x {
            let j = choose|j: int| 0 <= j < u.len() && (#[trigger] u[j]).0@ == x;
            assert(s[j].0@ == x);
        }
        if exists|j: int| 0 <= j < s.len() && (#[trigger] s[j]).0@ == x {
            let j = choose|j: int| 0 <= j < s.len() && (#[trigger] s[j]).0@ == x;
            assert(u[j].0@ == x);
        }
        if x == k {
            assert(u[i].0@ == x);
        }
    }
    assert forall|x: Seq<char>| #[trigger] table(u).dom().contains(x) implies table(u)[x] == m[x] by {
        let j = choose|j: int| 0 <= j < u.len() && (#[trigger] u[j]).0@ == x;
        if x == k {
            if j != i {
                if j < i {
                    assert(u[j].0@ != u[i].0@);
                } else {
                    assert(u[i].0@ != u[j].0@);
                }
            }
        } else {
            assert(s[j].0@ == x);
            let c = choose|c: int| 0 <= c < s.len() && (#[trigger] s[c]).0@ == x;
            if c != j {
                if c < j {
                    assert(s[c].0@ != s[j].0@);
                } else {
                    assert(s[j].0@ != s[c].0@);
                }
            }
        }
    }
    assert(table(u) =~= m);
}

proof fn lemma_row_push<V>(s: Seq<(String, V)>, k: String, v: V)
    requires
        distinct_rows(s),
        forall|j: int| 0 <= j < s.len() ==> (#[trigger] s[j]).0@ != k@,
    ensures
        distinct_rows(s.push((k, v))),
        table(s.push((k, v))) == table(s).insert(k@, v),
{
    let u = s.push((k, v));
    assert forall|a: int, b: int| 0 <= a < b < u.len() implies (#[trigger] u[a]).0@ != (#[trigger] u[b]).0@ by {
        assert(u[a] == s[a]);
        if b < s.len() {
            assert(u[b] == s[b]);
        }
    }
    let m = table(s).insert(k@, v);
    assert forall|x: Seq<char>| #[trigger] table(u).dom().contains(x) == m.dom().contains(x) by {
        if exists|j: int| 0 <= j < u.len() && (#[trigger] u[j]).0@ == x {
            let j = choose|j: int| 0 <= j < u.len() && (#[trigger] u[j]).0@ == x;
            if j < s.len() {
                assert(s[j].0@ == x);
            }
        }
        if exists|j: int| 0 <= j < s.len() && (#[trigger] s[j]).0@ == x {
            let j = choose|j: int| 0 <= j < s.len() && (#[trigger] s[j]).0@ == x;
            assert(u[j].0@ == x);
        }
        if x == k@ {
            assert(u[s.len() as int].0@ == x);
        }
    }
    assert forall|x: Seq<char>| #[trigger] table(u).dom().contains(x) implies table(u)[x] == m[x] by {
        let j = choose|j: int| 0 <= j < u.len() && (#[trigger] u[j]).0@ == x;
        if x == k@ {
            assert(j == s.len());
        } else {
            assert(j < s.len());
            assert(s[j].0@ == x);
            let c = choose|c: int| 0 <= c < s.len() && (#[trigger] s[c]).0@ == x;
            if c != j {
                if c < j {
                    assert(s[c].0@ != s[j].0@);
                } else {
                    assert(s[j].0@ != s[c].0@);
                }
            }
        }
    }
    assert(table(u) =~= m);
}

/// Adds `k` to a list of distinct texts.
fn add_text(s: &mut Vec<String>, k: &String)
    requires
        distinct_texts(old(s)@),
    ensures
        distinct_texts(final(s)@),
        text_set(final(s)@) == text_set(old(s)@).insert(k@),
{
    match find_text(s, k) {
        Some(i) => {
            proof {
                assert(text_set(s@).insert(k@) =~= text_set(s@));
            }
        },
        None => {
            let ghost before = s@;
            s.push(k.clone());
            proof {
                assert forall|a: int, b: int| 0 <= a < b < s@.len() implies (#[trigger] s@[a])@ != (
                #[trigger] s@[b])@ by {
                    assert(s@[a] == before[a]);
                    if b < before.len() {
                        assert(s@[b] == before[b]);
                    } else {
                        if before[a]@ == k@ {
                            assert(text_set(before).contains(k@));
                        }
                    }
                }
                assert forall|x: Seq<char>| #[trigger] text_set(s@).contains(x) == text_set(before).insert(k@).contains(x) by {
                    if text_set(s@).contains(x) {
                        let j = choose|j: int| 0 <= j < s@.len() && (#[trigger] s@[j])@ == x;
                        if j < before.len() {
                            assert(before[j]@ == x);
                        }
                    }
                    if text_set(before).contains(x) {
                        let j = choose|j: int| 0 <= j < before.len() && (#[trigger] before[j])@ == x;
                        assert(s@[j]@ == x);
                    }
                    if x == k@ {
                        assert(s@[before.len() as int]@ == x);
                    }
                }
                assert(text_set(s@) =~= text_set(before).insert(k@));
            }
        },
    }
}

/// Removes `k` from a list of distinct texts.
fn remove_text(s: &mut Vec<String>, k: &String)
    requires
        distinct_texts(old(s)@),
    ensures
        distinct_texts(final(s)@),
        text_set(final(s)@) == text_set(old(s)@).remove(k@),
{
    match find_text(s, k) {
        Some(i) => {
            let ghost before = s@;
            s.remove(i);
            proof {
                let r = s@;
                assert forall|a: int, b: int| 0 <= a < b < r.len() implies (#[trigger] r[a])@ != (
                #[trigger] r[b])@ by {
                    let a2 = if a < i { a } else { a + 1 };
                    let b2 = if b < i { b } else { b + 1 };
                    assert(r[a] == before[a2]);
                    assert(r[b] == before[b2]);
                }
                assert forall|x: Seq<char>| #[trigger] text_set(r).contains(x) == text_set(before).remove(k@).contains(x) by {
                    if text_set(r).contains(x) {
                        let j = choose|j: int| 0 <= j < r.len() && (#[trigger] r[j])@ == x;
                        if j < i {
                            assert(r[j] == before[j]);
                            assert(before[j]@ != before[i as int]@);
                        } else {
                            assert(r[j] == before[j + 1]);
                            assert(before[i as int]@ != before[j + 1]@);
                        }
                        assert(text_set(before).contains(x));
                    }
                    if text_set(before).remove(k@).contains(x) {
                        let j = choose|j: int| 0 <= j < before.len() && (#[trigger] before[j])@ == x;
                        assert(j != i);
                        if j < i {
                            assert(r[j] == before[j]);
                        } else {
                            assert(r[j - 1] == before[j]);
                        }
                    }
                }
                assert(text_set(r) =~= text_set(before).remove(k@));
            }
        },
        None => {
            proof {
                assert(text_set(s@).remove(k@) =~= text_set(s@));
            }
        },
    }
}

impl DDoSProtection {
    /// The addresses refused.
    pub closed spec fn blacklist(&self) -> Set<Seq<char>> {
        text_set(self.ip_blacklist@)
    }

    /// The addresses never limited.
    pub closed spec fn whitelist(&self) -> Set<Seq<char>> {
        text_set(self.ip_whitelist@)
    }

    /// The request counts of each address.
    pub closed spec fn rates(&self) -> Map<Seq<char>, RateLimit> {
        table(self.rate_limits@)
    }

    /// The connection counts of each address.
    pub closed spec fn connections(&self) -> Map<Seq<char>, ConnectionLimit> {
        table(self.connection_limits@)
    }

    /// The number of requests counted.
    pub closed spec fn request_count(&self) -> u64 {
        self.global_request_count
    }

    /// When counting started.
    pub closed spec fn started(&self) -> Timestamp {
        self.last_reset
    }

    /// Whether the stricter limits apply.
    pub closed spec fn attack(&self) -> bool {
        self.attack_mode
    }

    /// One entry per address in each list and table; an address in neither
    /// list has made at most the hourly and per-minute requests of the
    /// normal limits; no address has counted more than 50 connections.
    pub closed spec fn wf(&self) -> bool {
        &&& distinct_texts(self.ip_blacklist@)
        &&& distinct_texts(self.ip_whitelist@)
        &&& distinct_rows(self.rate_limits@)
        &&& distinct_rows(self.connection_limits@)
        &&& forall|k: Seq<char>|
            #![trigger self.rates()[k]]
            self.rates().contains_key(k) && !self.blacklist().contains(k) && !self.whitelist().contains(k)
                ==> self.rates()[k].requests <= 1000 && self.rates()[k].minute_requests <= 100
        &&& forall|k: Seq<char>|
            #![trigger self.connections()[k]]
            self.connections().contains_key(k) ==> self.connections()[k].connections <= 50
    }

    /// No limits, counts or lists yet, counting from `now`, normal mode.
    pub fn new(now: Timestamp) -> (res: Self)
        ensures
            res.wf(),
            res.blacklist() == Set::<Seq<char>>::empty(),
            res.whitelist() == Set::<Seq<char>>::empty(),
            res.rates() == Map::<Seq<char>, RateLimit>::empty(),
            res.connections() == Map::<Seq<char>, ConnectionLimit>::empty(),
            res.request_count() == 0,
            res.started() == now,
            !res.attack(),
    {
        let r = DDoSProtection {
            ip_blacklist: Vec::new(),
            ip_whitelist: Vec::new(),
            rate_limits: Vec::new(),
            connection_limits: Vec::new(),
            global_request_count: 0,
            last_reset: now,
            attack_mode: false,
        };
        proof {
            assert(r.blacklist() =~= Set::<Seq<char>>::empty());
            assert(r.whitelist() =~= Set::<Seq<char>>::empty());
            assert(r.rates() =~= Map::<Seq<char>, RateLimit>::empty());
            assert(r.connections() =~= Map::<Seq<char>, ConnectionLimit>::empty());
        }
        r
    }

    /// Whether `addr` is refused.
    pub fn is_banned(&self, addr: &String) -> (res: bool)
        ensures
            res == self.blacklist().contains(addr@),
    {
        find_text(&self.ip_blacklist, addr).is_some()
    }

    /// The number of requests counted.
    pub fn global_request_count(&self) -> (res: u64)
        ensures
            res == self.request_count(),
    {
        self.global_request_count
    }

    /// When counting started.
    pub fn last_reset(&self) -> (res: Timestamp)
        ensures
            res == self.started(),
    {
        self.last_reset
    }

    /// Counts a request from `addr` at `now`: always allowed from a
    /// whitelisted address and refused from a blacklisted one, neither
    /// counted; otherwise counted (see `counted_request`), also in the
    /// total, and refused, with the address blacklisted, when it exceeds
    /// the hourly or per-minute limit.
    pub fn check_rate_limit(&mut self, addr: &String, now: Timestamp) -> (res: bool)
        requires
            old(self).wf(),
            !old(self).whitelist().contains(addr@) && !old(self).blacklist().contains(addr@) ==> {
                &&& old(self).request_count() < u64::MAX
                &&& old(self).rates().contains_key(addr@) ==> now >= old(self).rates()[addr@].last_hour
                    && now >= old(self).rates()[addr@].last_minute
            },
        ensures
            final(self).wf(),
            final(self).whitelist() == old(self).whitelist(),
            final(self).connections() == old(self).connections(),
            final(self).started() == old(self).started(),
            final(self).attack() == old(self).attack(),
            if old(self).whitelist().contains(addr@) || old(self).blacklist().contains(addr@) {
                &&& res == old(self).whitelist().contains(addr@)
                &&& final(self).blacklist() == old(self).blacklist()
                &&& final(self).rates() == old(self).rates()
                &&& final(self).request_count() == old(self).request_count()
            } else {
                let r = counted_request(lookup(old(self).rates(), addr@), now);
                let over = r.requests > hourly_limit(old(self).attack()) || r.minute_requests
                    > minute_limit(old(self).attack());
                &&& res == !over
                &&& final(self).rates() == old(self).rates().insert(addr@, r)
                &&& final(self).request_count() == old(self).request_count() + 1
                &&& final(self).blacklist() == if over {
                    old(self).blacklist().insert(addr@)
                } else {
                    old(self).blacklist()
                }
            },
            !old(self).whitelist().contains(addr@) && !old(self).blacklist().contains(addr@) ==> {
                let n = final(self).rates()[addr@];
                &&& final(self).rates().contains_key(addr@)
                &&& !old(self).rates().contains_key(addr@) ==> n == (RateLimit {
                    requests: 1,
                    last_hour: now,
                    last_minute: now,
                    minute_requests: 1,
                })
                &&& old(self).rates().contains_key(addr@) ==> {
                    let o = old(self).rates()[addr@];
                    &&& now - o.last_hour > 3600 ==> n.requests == 1 && n.last_hour == now
                    &&& now - o.last_hour <= 3600 ==> n.requests == o.requests + 1 && n.last_hour
                        == o.last_hour
                    &&& now - o.last_minute > 60 ==> n.minute_requests == 1 && n.last_minute == now
                    &&& now - o.last_minute <= 60 ==> n.minute_requests == o.minute_requests + 1
                        && n.last_minute == o.last_minute
                }
                &&& res == (n.requests <= (if old(self).attack() { 100u32 } else { 1000u32 })
                    && n.minute_requests <= (if old(self).attack() { 10u32 } else { 100u32 }))
                &&& res ==> final(self).blacklist() == old(self).blacklist()
                &&& !res ==> final(self).blacklist() == old(self).blacklist().insert(addr@)
            },
    {
        if find_text(&self.ip_whitelist, addr).is_some() {
            return true;
        }
        if find_text(&self.ip_blacklist, addr).is_some() {
            return false;
        }
        let ghost rows = self.rate_limits@;
        let found = find_row(&self.rate_limits, addr);
        let r0 = match found {
            Some(i) => self.rate_limits[i].1,
            None => RateLimit { requests: 0, last_hour: now, last_minute: now, minute_requests: 0 },
        };
        let mut r = r0;
        if now - r.last_hour > 3600 {
            r.requests = 0;
            r.last_hour = now;
        }
        if now - r.last_minute > 60 {
            r.minute_requests = 0;
            r.last_minute = now;
        }
        proof {
            if found is Some {
                assert(!self.blacklist().contains(addr@) && !self.whitelist().contains(addr@));
                assert(self.rates()[addr@].requests <= 1000);
            }
        }
        r.requests = r.requests + 1;
        r.minute_requests = r.minute_requests + 1;
        match found {
            Some(i) => {
                self.rate_limits[i].1 = r;
                proof {
                    assert(self.rate_limits@ =~= rows.update(i as int, (rows[i as int].0, r)));
                    lemma_row_set(rows, i as int, r);
                }
            },
            None => {
                let key = addr.clone();
                self.rate_limits.push((key, r));
                proof {
                    lemma_row_push(rows, key, r);
                }
            },
        }
        self.global_request_count = self.global_request_count + 1;
        let max_per_hour: u32 = if self.attack_mode {
            100
        } else {
            1000
        };
        let max_per_minute: u32 = if self.attack_mode {
            10
        } else {
            100
        };
        let ghost before = *self;
        let over = r.requests > max_per_hour || r.minute_requests > max_per_minute;
        if over {
            add_text(&mut self.ip_blacklist, addr);
        }
        proof {
            assert(self.rates() == before.rates());
            assert forall|k: Seq<char>|
                #![trigger self.rates()[k]]
                self.rates().contains_key(k) && !self.blacklist().contains(k) && !self.whitelist().contains(k)
                    implies self.rates()[k].requests <= 1000 && self.rates()[k].minute_requests <= 100 by {
                if k != addr@ {
                    assert(old(self).rates()[k] == self.rates()[k]);
                    assert(old(self).rates().contains_key(k));
                }
            }
            assert forall|k: Seq<char>|
                #![trigger self.connections()[k]]
                self.connections().contains_key(k) implies self.connections()[k].connections <= 50 by {
                assert(old(self).connections()[k] == self.connections()[k]);
            }
        }
        !over
    }

    /// Counts a connection from `addr` at `now`: refused from a blacklisted
    /// address; otherwise the counts are refreshed (see
    /// `refreshed_connections`), and the connection is refused at the limit
    /// and else counted.
    pub fn check_connection_limit(&mut self, addr: &String, now: Timestamp) -> (res: bool)
        requires
            old(self).wf(),
            !old(self).blacklist().contains(addr@) && old(self).connections().contains_key(addr@)
                ==> now >= old(self).connections()[addr@].last_reset,
        ensures
            final(self).wf(),
            final(self).blacklist() == old(self).blacklist(),
            final(self).whitelist() == old(self).whitelist(),
            final(self).rates() == old(self).rates(),
            final(self).request_count() == old(self).request_count(),
            final(self).started() == old(self).started(),
            final(self).attack() == old(self).attack(),
            if old(self).blacklist().contains(addr@) {
                !res && final(self).connections() == old(self).connections()
            } else {
                let c = refreshed_connections(lookup(old(self).connections(), addr@), now);
                if c.connections >= connection_limit(old(self).attack()) {
                    !res && final(self).connections() == old(self).connections().insert(addr@, c)
                } else {
                    res && final(self).connections() == old(self).connections().insert(
                        addr@,
                        ConnectionLimit { connections: (c.connections + 1) as u32, ..c },
                    )
                }
            },
            !old(self).blacklist().contains(addr@) ==> {
                let limit: u32 = if old(self).attack() { 5 } else { 50 };
                let n = final(self).connections()[addr@];
                &&& final(self).connections().contains_key(addr@)
                &&& !old(self).connections().contains_key(addr@) ==> res && n == (ConnectionLimit {
                    connections: 1,
                    last_reset: now,
                    failures: 0,
                })
                &&& old(self).connections().contains_key(addr@) ==> {
                    let o = old(self).connections()[addr@];
                    &&& n.failures == o.failures
                    &&& now - o.last_reset > 60 ==> res && n.connections == 1 && n.last_reset == now
                    &&& now - o.last_reset <= 60 ==> n.last_reset == o.last_reset && (res <==> o.connections
                        < limit) && (res ==> n.connections == o.connections + 1) && (!res ==> n.connections
                        == o.connections)
                }
            },
    {
        if find_text(&self.ip_blacklist, addr).is_some() {
            return false;
        }
        let ghost rows = self.connection_limits@;
        let found = find_row(&self.connection_limits, addr);
        let mut c = match found {
            Some(i) => self.connection_limits[i].1,
            None => ConnectionLimit { connections: 0, last_reset: now, failures: 0 },
        };
        if now - c.last_reset > 60 {
            c.connections = 0;
            c.last_reset = now;
        }
        let max_connections: u32 = if self.attack_mode {
            5
        } else {
            50
        };
        let allowed = c.connections < max_connections;
        if allowed {
            c.connections = c.connections + 1;
        }
        match found {
            Some(i) => {
                self.connection_limits[i].1 = c;
                proof {
                    assert(self.connection_limits@ =~= rows.update(i as int, (rows[i as int].0, c)));
                    lemma_row_set(rows, i as int, c);
                }
            },
            None => {
                let key = addr.clone();
                self.connection_limits.push((key, c));
                proof {
                    lemma_row_push(rows, key, c);
                }
            },
        }
        proof {
            assert forall|k: Seq<char>|
                #![trigger self.rates()[k]]
                self.rates().contains_key(k) && !self.blacklist().contains(k) && !self.whitelist().contains(k)
                    implies self.rates()[k].requests <= 1000 && self.rates()[k].minute_requests <= 100 by {
                assert(old(self).rates()[k] == self.rates()[k]);
            }
            assert forall|k: Seq<char>|
                #![trigger self.connections()[k]]
                self.connections().contains_key(k) implies self.connections()[k].connections <= 50 by {
                if k != addr@ {
                    assert(old(self).connections()[k] == self.connections()[k]);
                    assert(old(self).connections().contains_key(k));
                }
            }
        }
        allowed
    }

    /// Counts a failure of `addr`, when it has connection counts; past ten
    /// failures the address is blacklisted.
    pub fn record_failure(&mut self, addr: &String)
        requires
            old(self).wf(),
            old(self).connections().contains_key(addr@) ==> old(self).connections()[addr@].failures
                < u32::MAX,
        ensures
            final(self).wf(),
            final(self).whitelist() == old(self).whitelist(),
            final(self).rates() == old(self).rates(),
            final(self).request_count() == old(self).request_count(),
            final(self).started() == old(self).started(),
            final(self).attack() == old(self).attack(),
            if old(self).connections().contains_key(addr@) {
                let c = old(self).connections()[addr@];
                let f = (c.failures + 1) as u32;
                &&& final(self).connections() == old(self).connections().insert(
                    addr@,
                    ConnectionLimit { failures: f, ..c },
                )
                &&& final(self).blacklist() == if f > 10 {
                    old(self).blacklist().insert(addr@)
                } else {
                    old(self).blacklist()
                }
            } else {
                final(self).connections() == old(self).connections() && final(self).blacklist() == old(self).blacklist()
            },
    {
        let ghost rows = self.connection_limits@;
        match find_row(&self.connection_limits, addr) {
            Some(i) => {
                let mut c = self.connection_limits[i].1;
                c.failures = c.failures + 1;
                self.connection_limits[i].1 = c;
                proof {
                    assert(self.connection_limits@ =~= rows.update(i as int, (rows[i as int].0, c)));
                    lemma_row_set(rows, i as int, c);
                }
                if c.failures > 10 {
                    add_text(&mut self.ip_blacklist, addr);
                }
                proof {
                    assert forall|k: Seq<char>|
                        #![trigger self.rates()[k]]
                        self.rates().contains_key(k) && !self.blacklist().contains(k) && !self.whitelist().contains(k)
                            implies self.rates()[k].requests <= 1000 && self.rates()[k].minute_requests <= 100 by {
                        assert(old(self).rates()[k] == self.rates()[k]);
                    }
                    assert forall|k: Seq<char>|
                        #![trigger self.connections()[k]]
                        self.connections().contains_key(k) implies self.connections()[k].connections <= 50 by {
                        assert(old(self).connections().contains_key(k));
                        if k != addr@ {
                            assert(old(self).connections()[k] == self.connections()[k]);
                        }
                    }
                }
            },
            None => {},
        }
    }

    /// Never limits `addr` again, until it is blacklisted.
    pub fn whitelist_ip(&mut self, addr: &String)
        requires
            old(self).wf(),
        ensures
            final(self).wf(),
            final(self).whitelist() == old(self).whitelist().insert(addr@),
            final(self).blacklist() == old(self).blacklist().remove(addr@),
            final(self).rates() == old(self).rates(),
            final(self).connections() == old(self).connections(),
            final(self).request_count() == old(self).request_count(),
            final(self).started() == old(self).started(),
            final(self).attack() == old(self).attack(),
    {
        add_text(&mut self.ip_whitelist, addr);
        remove_text(&mut self.ip_blacklist, addr);
        proof {
            assert forall|k: Seq<char>|
                #![trigger self.rates()[k]]
                self.rates().contains_key(k) && !self.blacklist().contains(k) && !self.whitelist().contains(k)
                    implies self.rates()[k].requests <= 1000 && self.rates()[k].minute_requests <= 100 by {
                assert(old(self).rates()[k] == self.rates()[k]);
            }
            assert forall|k: Seq<char>|
                #![trigger self.connections()[k]]
                self.connections().contains_key(k) implies self.connections()[k].connections <= 50 by {
                assert(old(self).connections()[k] == self.connections()[k]);
            }
        }
    }

    /// Refuses `addr` from now on, until it is whitelisted.
    pub fn blacklist_ip(&mut self, addr: &String)
        requires
            old(self).wf(),
        ensures
            final(self).wf(),
            final(self).blacklist() == old(self).blacklist().insert(addr@),
            final(self).whitelist() == old(self).whitelist().remove(addr@),
            final(self).rates() == old(self).rates(),
            final(self).connections() == old(self).connections(),
            final(self).request_count() == old(self).request_count(),
            final(self).started() == old(self).started(),
            final(self).attack() == old(self).attack(),
    {
        add_text(&mut self.ip_blacklist, addr);
        remove_text(&mut self.ip_whitelist, addr);
        proof {
            assert forall|k: Seq<char>|
                #![trigger self.rates()[k]]
                self.rates().contains_key(k) && !self.blacklist().contains(k) && !self.whitelist().contains(k)
                    implies self.rates()[k].requests <= 1000 && self.rates()[k].minute_requests <= 100 by {
                assert(old(self).rates()[k] == self.rates()[k]);
            }
            assert forall|k: Seq<char>|
                #![trigger self.connections()[k]]
                self.connections().contains_key(k) implies self.connections()[k].connections <= 50 by {
                assert(old(self).connections()[k] == self.connections()[k]);
            }
        }
    }

    /// Applies the stricter limits.
    pub fn enable_attack_mode(&mut self)
        requires
            old(self).wf(),
        ensures
            final(self).wf(),
            final(self).attack(),
            final(self).blacklist() == old(self).blacklist(),
            final(self).whitelist() == old(self).whitelist(),
            final(self).rates() == old(self).rates(),
            final(self).connections() == old(self).connections(),
            final(self).request_count() == old(self).request_count(),
            final(self).started() == old(self).started(),
    {
        self.attack_mode = true;
        proof {
            assert(self.rates() == old(self).rates());
            assert(self.connections() == old(self).connections());
            assert(self.blacklist() == old(self).blacklist());
            assert(self.whitelist() == old(self).whitelist());
        }
    }

    /// Applies the normal limits.
    pub fn disable_attack_mode(&mut self)
        requires
            old(self).wf(),
        ensures
            final(self).wf(),
            !final(self).attack(),
            final(self).blacklist() == old(self).blacklist(),
            final(self).whitelist() == old(self).whitelist(),
            final(self).rates() == old(self).rates(),
            final(self).connections() == old(self).connections(),
            final(self).request_count() == old(self).request_count(),
            final(self).started() == old(self).started(),
    {
        self.attack_mode = false;
        proof {
            assert(self.rates() == old(self).rates());
            assert(self.connections() == old(self).connections());
            assert(self.blacklist() == old(self).blacklist());
            assert(self.whitelist() == old(self).whitelist());
        }
    }
}

/// An address on neither list never holds more than the normal hourly and
/// per-minute request counts, and no address counts more than fifty
/// connections in a minute.
pub proof fn lemma_limits_hold(d: &DDoSProtection, addr: Seq<char>)
    requires
        d.wf(),
    ensures
        d.rates().contains_key(addr) && !d.blacklist().contains(addr) && !d.whitelist().contains(addr)
            ==> d.rates()[addr].requests <= 1000 && d.rates()[addr].minute_requests <= 100,
        d.connections().contains_key(addr) ==> d.connections()[addr].connections <= 50,
{
    if d.rates().contains_key(addr) {
        assert(d.rates()[addr] == d.rates()[addr]);
    }
    if d.connections().contains_key(addr) {
        assert(d.connections()[addr] == d.connections()[addr]);
    }
}

} // verus!
