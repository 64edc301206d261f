//! Cumulative statistics over the connections seen, and their summary.
use vstd::prelude::*;
use crate::cache::opt_text;
use crate::endpoint::{ip_of, ip_part};
use crate::tally::{bumped, lists_exactly, Tally};

verus! {

/// Counts ordered from largest to smallest.
pub open spec fn by_count_desc(v: Seq<(String, u64)>) -> bool {
    forall|a: int, b: int| 0 <= a < b < v.len() ==> v[a].1 >= v[b].1
}

/// The entries of `m` with the largest counts: `k` of them, each once, in
/// decreasing order of count, and none left out that counts more than one
/// listed.
pub open spec fn top_entries(v: Seq<(String, u64)>, m: Map<Seq<char>, nat>, k: nat) -> bool {
    &&& v.len() == k
    &&& by_count_desc(v)
    &&& forall|a: int, b: int| 0 <= a < b < v.len() ==> v[a].0@ != v[b].0@
    &&& forall|a: int|
        0 <= a < v.len() ==> m.contains_key(#[trigger] v[a].0@) && m[v[a].0@] == v[a].1 as nat
    &&& forall|key: Seq<char>|
        m.contains_key(key) && (forall|a: int| 0 <= a < v.len() ==> (#[trigger] v[a]).0@ != key)
            ==> (forall|a: int| 0 <= a < v.len() ==> m[key] <= (#[trigger] v[a]).1)
}

/// Keys of `v` are pairwise distinct.
pub open spec fn distinct_keys(v: Seq<(String, u64)>) -> bool {
    forall|a: int, b: int| 0 <= a < b < v.len() ==> v[a].0@ != v[b].0@
}

/// Each entry of `r` is one of the first `n` entries of `v`.
#[verifier::opaque]
pub open spec fn drawn_from(r: Seq<(String, u64)>, v: Seq<(String, u64)>, n: int) -> bool {
    forall|a: int| #![trigger r[a]] 0 <= a < r.len() ==> exists|j: int| #![trigger v[j]] 0 <= j < n && r[a] == v[j]
}

/// Each of the first `n` entries of `v` is in `r`.
#[verifier::opaque]
pub open spec fn covers(r: Seq<(String, u64)>, v: Seq<(String, u64)>, n: int) -> bool {
    forall|j: int| #![trigger v[j]] 0 <= j < n ==> exists|a: int| #![trigger r[a]] 0 <= a < r.len() && r[a] == v[j]
}

proof fn lemma_insert_sorted(r: Seq<(String, u64)>, e: (String, u64), p: int)
    requires
        0 <= p <= r.len(),
        by_count_desc(r),
        forall|a: int| 0 <= a < p ==> r[a].1 >= e.1,
        p < r.len() ==> r[p].1 < e.1,
    ensures
        by_count_desc(r.insert(p, e)),
{
    let n = r.insert(p, e);
    r.insert_ensures(p, e);
    assert forall|a: int, b: int| 0 <= a < b < n.len() implies n[a].1 >= n[b].1 by {
        if b < p {
        } else if b == p {
        } else if a < p {
            assert(n[b] == r[b - 1]);
        } else if a == p {
            assert(n[b] == r[b - 1]);
        } else {
            assert(n[b] == r[b - 1]);
            assert(n[a] == r[a - 1]);
        }
    }
}

proof fn lemma_insert_drawn(r: Seq<(String, u64)>, v: Seq<(String, u64)>, i: int, p: int)
    requires
        0 <= i < v.len(),
        0 <= p <= r.len(),
        drawn_from(r, v, i),
    ensures
        drawn_from(r.insert(p, v[i]), v, i + 1),
{
    reveal(drawn_from);
    let n = r.insert(p, v[i]);
    r.insert_ensures(p, v[i]);
    assert forall|a: int| #![trigger n[a]] 0 <= a < n.len() implies exists|j: int| #![trigger v[j]]
        0 <= j < i + 1 && n[a] == v[j] by {
        if a < p {
            assert(n[a] == r[a]);
        } else if a > p {
            assert(n[a] == r[a - 1]);
        } else {
            assert(n[a] == v[i]);
        }
    }
}

proof fn lemma_insert_distinct(r: Seq<(String, u64)>, v: Seq<(String, u64)>, i: int, p: int)
    requires
        0 <= i < v.len(),
        0 <= p <= r.len(),
        distinct_keys(v),
        distinct_keys(r),
        drawn_from(r, v, i),
    ensures
        distinct_keys(r.insert(p, v[i])),
{
    reveal(drawn_from);
    let n = r.insert(p, v[i]);
    r.insert_ensures(p, v[i]);
    assert forall|a: int, b: int| 0 <= a < b < n.len() implies n[a].0@ != n[b].0@ by {
        let ia = if a < p { a } else if a > p { a - 1 } else { -1 };
        let ib = if b < p { b } else if b > p { b - 1 } else { -1 };
        if ia >= 0 && ib >= 0 {
            assert(n[a] == r[ia]);
            assert(n[b] == r[ib]);
        } else if ia >= 0 {
            assert(n[a] == r[ia]);
            let j = choose|j: int| 0 <= j < i && r[ia] == v[j];
            assert(v[j].0@ != v[i].0@);
        } else {
            assert(n[b] == r[ib]);
            let j = choose|j: int| 0 <= j < i && r[ib] == v[j];
            assert(v[j].0@ != v[i].0@);
        }
    }
}

proof fn lemma_insert_covers(r: Seq<(String, u64)>, v: Seq<(String, u64)>, i: int, p: int)
    requires
        0 <= i < v.len(),
        0 <= p <= r.len(),
        covers(r, v, i),
    ensures
        covers(r.insert(p, v[i]), v, i + 1),
{
    reveal(covers);
    let n = r.insert(p, v[i]);
    r.insert_ensures(p, v[i]);
    assert forall|j: int| #![trigger v[j]] 0 <= j < i + 1 implies exists|a: int| #![trigger n[a]]
        0 <= a < n.len() && n[a] == v[j] by {
        if j == i {
            assert(n[p] == v[j]);
        } else {
            let a = choose|a: int| 0 <= a < r.len() && r[a] == v[j];
            if a < p {
                assert(n[a] == v[j]);
            } else {
                assert(n[a + 1] == v[j]);
            }
        }
    }
}

/// The entries of `v`, reordered by decreasing count.
pub fn rank_by_count(v: &Vec<(String, u64)>) -> (r: Vec<(String, u64)>)
    requires
        distinct_keys(v@),
    ensures
        r@.len() == v@.len(),
        by_count_desc(r@),
        distinct_keys(r@),
        drawn_from(r@, v@, v@.len() as int),
        covers(r@, v@, v@.len() as int),
{
    let mut r: Vec<(String, u64)> = Vec::new();
    let mut i: usize = 0;
    proof {
        reveal(drawn_from);
        reveal(covers);
    }
    while i < v.len()
        invariant
            i <= v@.len(),
            r@.len() == i,
            distinct_keys(v@),
            by_count_desc(r@),
            distinct_keys(r@),
            drawn_from(r@, v@, i as int),
            covers(r@, v@, i as int),
        decreases v@.len() - i,
    {
        let e = (v[i].0.clone(), v[i].1);
        let mut p: usize = 0;
        while p < r.len() && r[p].1 >= e.1
            invariant
                p <= r@.len(),
                forall|a: int| 0 <= a < p ==> r@[a].1 >= e.1,
            decreases r@.len() - p,
        {
            p = p + 1;
        }
        proof {
            assert(e == v@[i as int]);
            lemma_insert_sorted(r@, e, p as int);
            lemma_insert_drawn(r@, v@, i as int, p as int);
            lemma_insert_distinct(r@, v@, i as int, p as int);
            lemma_insert_covers(r@, v@, i as int, p as int);
        }
        r.insert(p, e);
        i = i + 1;
    }
    r
}

proof fn lemma_top(r: Seq<(String, u64)>, v: Seq<(String, u64)>, m: Map<Seq<char>, nat>, k: int)
    requires
        lists_exactly(v, m),
        r.len() == v.len(),
        0 <= k <= r.len(),
        by_count_desc(r),
        distinct_keys(r),
        drawn_from(r, v, v.len() as int),
        covers(r, v, v.len() as int),
    ensures
        top_entries(r.take(k), m, k as nat),
{
    reveal(drawn_from);
    reveal(covers);
    let t = r.take(k);
    assert forall|a: int| 0 <= a < t.len() implies m.contains_key(#[trigger] t[a].0@) && m[t[a].0@]
        == t[a].1 as nat by {
        assert(t[a] == r[a]);
        let j = choose|j: int| 0 <= j < v.len() && r[a] == v[j];
        assert(m.contains_key(v[j].0@));
    }
    assert forall|key: Seq<char>|
        m.contains_key(key) && (forall|a: int| 0 <= a < t.len() ==> (#[trigger] t[a]).0@ != key)
            implies (forall|a: int| 0 <= a < t.len() ==> m[key] <= (#[trigger] t[a]).1) by {
        let j = choose|j: int| 0 <= j < v.len() && v[j].0@ == key;
        let b = choose|b: int| 0 <= b < r.len() && r[b] == v[j];
        if b < k {
            assert(t[b].0@ == key);
        }
        assert forall|a: int| 0 <= a < t.len() implies m[key] <= (#[trigger] t[a]).1 by {
            assert(t[a] == r[a]);
            assert(m.contains_key(v[j].0@));
        }
    }
}

/// A read of the statistics at one moment.
pub struct Summary {
    pub total: u64,
    pub unique_ips: usize,
    pub unique_domains: usize,
    /// Milliseconds since monitoring started.
    pub elapsed_ms: u64,
    /// The domains with the most connections, most first, with their counts.
    pub top_domains: Vec<(String, u64)>,
    /// How many further domains were left out of `top_domains`.
    pub more_domains: usize,
}

pub struct ConnectionStats {
    total_connections: u64,
    domains: Tally,
    ips: Tally,
    start_ms: u64,
}

impl ConnectionStats {
    pub closed spec fn wf(&self) -> bool {
        &&& self.domains.wf()
        &&& self.ips.wf()
        &&& forall|k: Seq<char>| #[trigger]
            self.ips@.contains_key(k) ==> self.ips@[k] <= self.total_connections
        &&& forall|k: Seq<char>| #[trigger]
            self.domains@.contains_key(k) ==> self.domains@[k] <= self.total_connections
    }

    /// The number of connections recorded.
    pub closed spec fn total(&self) -> nat {
        self.total_connections as nat
    }

    /// Connections per address.
    pub closed spec fn ips(&self) -> Map<Seq<char>, nat> {
        self.ips@
    }

    /// Connections per resolved domain.
    pub closed spec fn domains(&self) -> Map<Seq<char>, nat> {
        self.domains@
    }

    /// When monitoring started, in milliseconds.
    pub closed spec fn start(&self) -> nat {
        self.start_ms as nat
    }

    /// Empty statistics for monitoring that starts at `now_ms`.
    pub fn new(now_ms: u64) -> (s: ConnectionStats)
        ensures
            s.wf(),
            s.total() == 0,
            s.ips() == Map::<Seq<char>, nat>::empty(),
            s.domains() == Map::<Seq<char>, nat>::empty(),
            s.start() == now_ms,
    {
        ConnectionStats {
            total_connections: 0,
            domains: Tally::new(),
            ips: Tally::new(),
            start_ms: now_ms,
        }
    }

    /// Records one connection to `addr`, resolved to `domain` or not.
    pub fn add_connection(&mut self, addr: &str, domain: &Option<String>)
        requires
            old(self).wf(),
            old(self).total() < u64::MAX,
        ensures
            final(self).wf(),
            final(self).total() == old(self).total() + 1,
            final(self).ips() == bumped(old(self).ips(), ip_part(addr@)),
            final(self).domains() == match opt_text(*domain) {
                Some(d) => bumped(old(self).domains(), d),
                None => old(self).domains(),
            },
            final(self).start() == old(self).start(),
    {
        self.total_connections = self.total_connections + 1;
        let ip = ip_of(addr);
        self.ips.bump(&ip);
        if let Some(d) = domain {
            self.domains.bump(d);
        }
    }

    /// The number of connections recorded.
    pub fn total_connections(&self) -> (r: u64)
        ensures
            r == self.total(),
    {
        self.total_connections
    }

    /// The counts at `now_ms`, with the `top_n` domains that count most.
    pub fn summary(&self, now_ms: u64, top_n: usize) -> (r: Summary)
        requires
            self.wf(),
        ensures
            r.total == self.total(),
            r.unique_ips == self.ips().dom().len(),
            r.unique_domains == self.domains().dom().len(),
            r.elapsed_ms == if now_ms >= self.start() {
                now_ms - self.start()
            } else {
                0
            },
            top_entries(
                r.top_domains@,
                self.domains(),
                if top_n < r.unique_domains {
                    top_n as nat
                } else {
                    r.unique_domains as nat
                },
            ),
            r.more_domains == r.unique_domains - r.top_domains@.len(),
    {
        let entries = self.domains.entries();
        let mut ranked = rank_by_count(&entries);
        let unique_domains = self.domains.len();
        let k = if top_n < unique_domains {
            top_n
        } else {
            unique_domains
        };
        proof {
            lemma_top(ranked@, entries@, self.domains@, k as int);
        }
        ranked.truncate(k);
        let elapsed_ms = if now_ms >= self.start_ms {
            now_ms - self.start_ms
        } else {
            0
        };
        Summary {
            total: self.total_connections,
            unique_ips: self.ips.len(),
            unique_domains,
            elapsed_ms,
            top_domains: ranked,
            more_domains: unique_domains - k,
        }
    }
}

} // verus!
