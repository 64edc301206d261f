//! Reverse-lookup results kept per address for a time-to-live, and the
//! resolver's use of them.
use vstd::prelude::*;
use crate::endpoint::{endpoint_text, render_endpoint, socket_parts, split_endpoint};
use crate::tally::texts;

verus! {

/// An optional text as a value.
pub open spec fn opt_text(o: Option<String>) -> Option<Seq<char>> {
    match o {
        Some(s) => Some(s@),
        None => None,
    }
}

/// A result observed at `observed_at` (milliseconds) is still usable at `now`
/// when it is younger than `ttl_secs` seconds.
pub open spec fn is_fresh(observed_at: nat, ttl_secs: nat, now: nat) -> bool {
    now < observed_at + ttl_secs * 1000
}

/// What a cache holds: per address, the hostname found (or none) and when.
pub type CacheMap = Map<Seq<char>, (Option<Seq<char>>, nat)>;

/// The usable cached result for `ip` at `now`: `None` on a miss or where the
/// entry has expired.
pub open spec fn cached(m: CacheMap, ttl_secs: nat, ip: Seq<char>, now: nat) -> Option<
    Option<Seq<char>>,
> {
    if m.contains_key(ip) && is_fresh(m[ip].1, ttl_secs, now) {
        Some(m[ip].0)
    } else {
        None
    }
}

pub struct DnsCache {
    ips: Vec<String>,
    hostnames: Vec<Option<String>>,
    times: Vec<u64>,
    ttl_secs: u64,
    model: Ghost<CacheMap>,
}

impl View for DnsCache {
    type V = CacheMap;

    closed spec fn view(&self) -> CacheMap {
        self.model@
    }
}

fn clone_opt(o: &Option<String>) -> (r: Option<String>)
    ensures
        opt_text(r) == opt_text(*o),
{
    match o {
        Some(s) => Some(s.clone()),
        None => None,
    }
}

impl DnsCache {
    pub closed spec fn wf(&self) -> bool {
        &&& self.ips@.len() == self.hostnames@.len() == self.times@.len()
        &&& texts(self.ips@).no_duplicates()
        &&& self.model@.dom() == texts(self.ips@).to_set()
        &&& forall|i: int|
            0 <= i < self.ips@.len() ==> self.model@[#[trigger] self.ips@[i]@] == (
                opt_text(self.hostnames@[i]),
                self.times@[i] as nat,
            )
    }

    /// The time-to-live of entries, in seconds.
    pub closed spec fn ttl(&self) -> nat {
        self.ttl_secs as nat
    }

    /// An empty cache whose entries live `ttl_secs` seconds.
    pub fn new(ttl_secs: u64) -> (c: DnsCache)
        ensures
            c.wf(),
            c@ == CacheMap::empty(),
            c.ttl() == ttl_secs,
    {
        let c = DnsCache {
            ips: Vec::new(),
            hostnames: Vec::new(),
            times: Vec::new(),
            ttl_secs,
            model: Ghost(Map::empty()),
        };
        assert(texts(c.ips@).to_set() =~= Set::<Seq<char>>::empty());
        c
    }

    fn find(&self, ip: &String) -> (r: Option<usize>)
        requires
            self.wf(),
        ensures
            match r {
                Some(i) => i < self.ips@.len() && self.ips@[i as int]@ == ip@ && self@.contains_key(
                    ip@,
                ),
                None => !self@.contains_key(ip@),
            },
    {
        let mut i: usize = 0;
        while i < self.ips.len()
            invariant
                self.wf(),
                i <= self.ips@.len(),
                forall|j: int| 0 <= j < i ==> self.ips@[j]@ != ip@,
            decreases self.ips@.len() - i,
        {
            if self.ips[i] == *ip {
                assert(texts(self.ips@)[i as int] == ip@);
                assert(texts(self.ips@).to_set().contains(texts(self.ips@)[i as int]));
                return Some(i);
            }
            i = i + 1;
        }
        proof {
            if self@.contains_key(ip@) {
                assert(texts(self.ips@).contains(ip@));
                let j = choose|j: int| 0 <= j < texts(self.ips@).len() && texts(self.ips@)[j] == ip@;
                assert(self.ips@[j]@ == ip@);
            }
        }
        None
    }

    /// The hostname cached for `ip` (itself possibly none) if it is present
    /// and younger than the time-to-live at `now_ms`.
    pub fn get(&self, ip: &String, now_ms: u64) -> (r: Option<Option<String>>)
        requires
            self.wf(),
        ensures
            match r {
                Some(h) => cached(self@, self.ttl(), ip@, now_ms as nat) == Some(opt_text(h)),
                None => cached(self@, self.ttl(), ip@, now_ms as nat) is None,
            },
    {
        match self.find(ip) {
            Some(i) => {
                let fresh = (now_ms as u128) < (self.times[i] as u128) + (self.ttl_secs as u128)
                    * 1000;
                if fresh {
                    Some(clone_opt(&self.hostnames[i]))
                } else {
                    None
                }
            },
            None => None,
        }
    }

    /// Records the outcome of a lookup of `ip` made at `now_ms`, replacing
    /// what was there.
    pub fn set(&mut self, ip: String, hostname: Option<String>, now_ms: u64)
        requires
            old(self).wf(),
        ensures
            final(self).wf(),
            final(self).ttl() == old(self).ttl(),
            final(self)@ == old(self)@.insert(ip@, (opt_text(hostname), now_ms as nat)),
    {
        let ghost entry = (opt_text(hostname), now_ms as nat);
        match self.find(&ip) {
            Some(i) => {
                self.hostnames.set(i, hostname);
                self.times.set(i, now_ms);
                self.model = Ghost(self.model@.insert(ip@, entry));
                assert forall|j: int| 0 <= j < self.ips@.len() implies self.model@[
                    #[trigger] self.ips@[j]@] == (
                    opt_text(self.hostnames@[j]),
                    self.times@[j] as nat,
                ) by {
                    if j != i {
                        assert(texts(self.ips@)[j] != texts(self.ips@)[i as int]);
                    }
                }
                assert(self.model@.dom() =~= texts(self.ips@).to_set()) by {
                    assert(texts(self.ips@)[i as int] == ip@);
                }
            },
            None => {
                let ghost old_ips = texts(self.ips@);
                let ghost key = ip@;
                self.ips.push(ip);
                self.hostnames.push(hostname);
                self.times.push(now_ms);
                self.model = Ghost(self.model@.insert(key, entry));
                assert(texts(self.ips@) =~= old_ips.push(key));
                assert(texts(self.ips@).to_set() =~= old_ips.to_set().insert(key)) by {
                    Seq::lemma_to_set_insert_commutes(old_ips, key);
                    assert(old_ips.push(key) =~= old_ips + seq![key]);
                }
                assert forall|a: int, b: int|
                    0 <= a < b < texts(self.ips@).len() implies texts(self.ips@)[a] != texts(
                    self.ips@,
                )[b] by {
                    if b == old_ips.len() {
                        assert(old_ips.to_set().contains(old_ips[a]));
                    } else {
                        assert(old_ips[a] != old_ips[b]);
                    }
                }
                assert forall|j: int| 0 <= j < self.ips@.len() implies self.model@[
                    #[trigger] self.ips@[j]@] == (
                    opt_text(self.hostnames@[j]),
                    self.times@[j] as nat,
                ) by {
                    if j < old_ips.len() {
                        assert(old_ips.to_set().contains(old_ips[j]));
                        assert(self.ips@[j]@ == old_ips[j]);
                    }
                }
            },
        }
    }
}

/// Reading back what was just stored gives exactly the stored hostname,
/// a stored absence included, whenever entries live at all.
pub proof fn lemma_store_then_read(
    m: CacheMap,
    ttl_secs: nat,
    ip: Seq<char>,
    hostname: Option<Seq<char>>,
    now: nat,
)
    requires
        ttl_secs > 0,
    ensures
        cached(m.insert(ip, (hostname, now)), ttl_secs, ip, now) == Some(hostname),
{
}

/// After a result for `ip` is stored at `stored_at`, asking again is answered
/// from the cache until the time-to-live has passed, and not after.
pub proof fn lemma_one_lookup_per_ttl(
    m: CacheMap,
    ttl_secs: nat,
    ip: Seq<char>,
    hostname: Option<Seq<char>>,
    stored_at: nat,
    now: nat,
)
    requires
        stored_at <= now,
    ensures
        now < stored_at + ttl_secs * 1000 ==> cached(
            m.insert(ip, (hostname, stored_at)),
            ttl_secs,
            ip,
            now,
        ) == Some(hostname),
        now >= stored_at + ttl_secs * 1000 ==> cached(
            m.insert(ip, (hostname, stored_at)),
            ttl_secs,
            ip,
            now,
        ) is None,
{
}

/// The cache after one resolution of `ip` at `at`: a miss is followed by a
/// lookup whose outcome `found` is stored; a hit leaves the cache as it was.
pub open spec fn after_resolution(
    m: CacheMap,
    ttl_secs: nat,
    ip: Seq<char>,
    at: nat,
    found: Option<Seq<char>>,
) -> CacheMap {
    if cached(m, ttl_secs, ip, at) is None {
        m.insert(ip, (found, at))
    } else {
        m
    }
}

/// The number of lookups that one resolution of `ip` at `at` makes.
pub open spec fn lookups(m: CacheMap, ttl_secs: nat, ip: Seq<char>, at: nat) -> nat {
    if cached(m, ttl_secs, ip, at) is None {
        1
    } else {
        0
    }
}

/// Two resolutions of one address, the second less than the time-to-live
/// after the first, make at most one lookup between them; where the first
/// looked up, the second is answered with what it found.
pub proof fn lemma_at_most_one_lookup_within_ttl(
    m: CacheMap,
    ttl_secs: nat,
    ip: Seq<char>,
    first: nat,
    second: nat,
    found: Option<Seq<char>>,
)
    requires
        ttl_secs > 0,
        first <= second < first + ttl_secs * 1000,
    ensures
        lookups(m, ttl_secs, ip, first) + lookups(
            after_resolution(m, ttl_secs, ip, first, found),
            ttl_secs,
            ip,
            second,
        ) <= 1,
        cached(m, ttl_secs, ip, first) is None ==> cached(
            after_resolution(m, ttl_secs, ip, first, found),
            ttl_secs,
            ip,
            second,
        ) == Some(found),
{
}

/// What the resolver does next for an endpoint.
pub enum ResolveStep {
    /// The endpoint is not `host:port`: it stays as it is, without a hostname.
    Unparsed { endpoint: String },
    /// The cache answered.
    Cached { endpoint: String, hostname: Option<String> },
    /// A reverse lookup of `ip` is needed; its outcome goes back with `DnsCache::set`.
    Lookup { endpoint: String, ip: String },
}

/// The resolver's decision for `endpoint` at `now_ms`: the endpoint in its
/// canonical `ip:port` form, and the cached hostname when the cache holds a
/// fresh one, or else the address to look up.
pub fn resolve_domain_name(endpoint: &str, cache: &DnsCache, now_ms: u64) -> (r: ResolveStep)
    requires
        cache.wf(),
    ensures
        match socket_parts(endpoint@) {
            None => r matches ResolveStep::Unparsed { endpoint: e } && e@ == endpoint@,
            Some((ip, port)) => match cached(cache@, cache.ttl(), ip, now_ms as nat) {
                Some(h) => r matches ResolveStep::Cached { endpoint: e, hostname: g } && e@
                    == endpoint_text(ip, port) && opt_text(g) == h,
                None => r matches ResolveStep::Lookup { endpoint: e, ip: a } && e@ == endpoint_text(
                    ip,
                    port,
                ) && a@ == ip,
            },
        },
{
    match split_endpoint(endpoint) {
        None => ResolveStep::Unparsed { endpoint: String::from_str(endpoint) },
        Some((ip, port)) => {
            let canonical = render_endpoint(ip.as_str(), port);
            match cache.get(&ip, now_ms) {
                Some(hostname) => ResolveStep::Cached { endpoint: canonical, hostname },
                None => ResolveStep::Lookup { endpoint: canonical, ip },
            }
        },
    }
}

} // verus!
