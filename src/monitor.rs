//! The monitoring loop's decisions: which endpoints are new at each poll,
//! what the policy does with each, and the outcome when the child ends.
//!
//! The caller drives it: it enumerates the child's endpoints, hands them to
//! `poll`, resolves each new endpoint, hands the result to `on_connection`,
//! and carries out the verdict.
use vstd::prelude::*;
use crate::cache::opt_text;
use crate::endpoint::ip_part;
use crate::stats::ConnectionStats;
use crate::tally::{bumped, contains_text, lemma_push_fresh_no_dup, lemma_text_set_push, text_set, texts};

verus! {

/// How newly observed connections are treated.
#[derive(Clone, Copy, Debug, PartialEq, Eq, Structural)]
pub enum ExecutionMode {
    /// Report each connection.
    Normal,
    /// Kill the child at its first connection.
    ExitFirst,
    /// Report each connection as blocked and count it; the child goes on.
    BlockAndContinue,
}

impl ExecutionMode {
    /// The policy selected by the two switches; `exit_first` wins when both
    /// are set.
    pub fn from_flags(exit_first: bool, block: bool) -> (m: ExecutionMode)
        ensures
            m == if exit_first {
                ExecutionMode::ExitFirst
            } else if block {
                ExecutionMode::BlockAndContinue
            } else {
                ExecutionMode::Normal
            },
    {
        if exit_first {
            ExecutionMode::ExitFirst
        } else if block {
            ExecutionMode::BlockAndContinue
        } else {
            ExecutionMode::Normal
        }
    }
}

/// What was done with one new connection.
#[derive(Clone, Copy, Debug, PartialEq, Eq, Structural)]
pub enum Verdict {
    /// Reported; monitoring goes on.
    Reported,
    /// Reported as blocked and counted; monitoring goes on.
    Blocked,
    /// The child is to be killed now; monitoring ends.
    Kill,
    /// The child was already killed: nothing was recorded.
    Ignored,
}

/// The endpoints of a poll that were not known from the previous one.
pub open spec fn new_endpoints(known: Set<Seq<char>>, current: Set<Seq<char>>) -> Set<
    Seq<char>,
> {
    current.difference(known)
}

pub struct Monitor {
    mode: ExecutionMode,
    known: Vec<String>,
    stats: ConnectionStats,
    blocked: u64,
    killed: bool,
}

impl Monitor {
    pub closed spec fn wf(&self) -> bool {
        &&& self.stats.wf()
        &&& texts(self.known@).no_duplicates()
        &&& self.mode == ExecutionMode::BlockAndContinue ==> self.blocked == self.stats.total()
        &&& self.mode != ExecutionMode::BlockAndContinue ==> self.blocked == 0
        &&& self.killed ==> self.mode == ExecutionMode::ExitFirst
    }

    pub closed spec fn mode(&self) -> ExecutionMode {
        self.mode
    }

    /// The endpoints seen at the last poll.
    pub closed spec fn known(&self) -> Set<Seq<char>> {
        text_set(self.known@)
    }

    /// The statistics gathered so far.
    pub closed spec fn stats(&self) -> ConnectionStats {
        self.stats
    }

    /// Connections reported as blocked.
    pub closed spec fn blocked(&self) -> nat {
        self.blocked as nat
    }

    /// The policy has killed the child.
    pub closed spec fn killed(&self) -> bool {
        self.killed
    }

    /// A monitor that has seen nothing yet, started at `now_ms`.
    pub fn new(mode: ExecutionMode, now_ms: u64) -> (m: Monitor)
        ensures
            m.wf(),
            m.mode() == mode,
            m.known() == Set::<Seq<char>>::empty(),
            m.stats().total() == 0,
            m.stats().ips() == Map::<Seq<char>, nat>::empty(),
            m.stats().domains() == Map::<Seq<char>, nat>::empty(),
            m.stats().start() == now_ms,
            m.blocked() == 0,
            !m.killed(),
    {
        let m = Monitor {
            mode,
            known: Vec::new(),
            stats: ConnectionStats::new(now_ms),
            blocked: 0,
            killed: false,
        };
        assert(text_set(m.known@) =~= Set::<Seq<char>>::empty());
        m
    }

    /// Takes the endpoints enumerated at this tick: returns those that were
    /// not known from the previous tick, each once, and makes the current ones
    /// the known ones. Once the child was killed nothing is new any more.
    pub fn poll(&mut self, current: &Vec<String>) -> (fresh: Vec<String>)
        requires
            old(self).wf(),
        ensures
            final(self).wf(),
            texts(fresh@).no_duplicates(),
            old(self).killed() ==> fresh@.len() == 0 && *final(self) == *old(self),
            !old(self).killed() ==> text_set(fresh@) == new_endpoints(
                old(self).known(),
                text_set(current@),
            ) && final(self).known() == text_set(current@),
            final(self).mode() == old(self).mode(),
            final(self).stats() == old(self).stats(),
            final(self).blocked() == old(self).blocked(),
            final(self).killed() == old(self).killed(),
    {
        let mut fresh: Vec<String> = Vec::new();
        if self.killed {
            assert(texts(fresh@) =~= Seq::<Seq<char>>::empty());
            return fresh;
        }
        let mut next: Vec<String> = Vec::new();
        let mut i: usize = 0;
        assert(texts(fresh@) =~= Seq::<Seq<char>>::empty());
        assert(texts(next@) =~= Seq::<Seq<char>>::empty());
        assert(text_set(current@.take(0)) =~= Set::<Seq<char>>::empty());
        assert(text_set(next@) =~= Set::<Seq<char>>::empty());
        assert(text_set(fresh@) =~= Set::<Seq<char>>::empty());
        while i < current.len()
            invariant
                i <= current@.len(),
                texts(next@).no_duplicates(),
                texts(fresh@).no_duplicates(),
                text_set(next@) == text_set(current@.take(i as int)),
                text_set(fresh@) == text_set(current@.take(i as int)).difference(
                    text_set(self.known@),
                ),
            decreases current@.len() - i,
        {
            let c = &current[i];
            proof {
                assert(current@.take(i + 1) =~= current@.take(i as int).push(*c));
                lemma_text_set_push(current@.take(i as int), *c);
            }
            if !contains_text(&next, c) {
                proof {
                    lemma_push_fresh_no_dup(next@, *c);
                    lemma_text_set_push(next@, *c);
                }
                next.push(c.clone());
                if !contains_text(&self.known, c) {
                    proof {
                        lemma_push_fresh_no_dup(fresh@, *c);
                        lemma_text_set_push(fresh@, *c);
                    }
                    fresh.push(c.clone());
                    assert(text_set(fresh@) =~= text_set(current@.take(i + 1)).difference(
                        text_set(self.known@),
                    ));
                } else {
                    assert(text_set(fresh@) =~= text_set(current@.take(i + 1)).difference(
                        text_set(self.known@),
                    ));
                }
            } else {
                assert(text_set(next@) =~= text_set(current@.take(i + 1)));
                assert(text_set(fresh@) =~= text_set(current@.take(i + 1)).difference(
                    text_set(self.known@),
                ));
            }
            i = i + 1;
        }
        assert(current@.take(i as int) =~= current@);
        self.known = next;
        fresh
    }

    /// Records a new connection to `addr` (resolved to `domain` or not) and
    /// applies the policy to it.
    pub fn on_connection(&mut self, addr: &str, domain: &Option<String>) -> (v: Verdict)
        requires
            old(self).wf(),
            old(self).stats().total() < u64::MAX,
        ensures
            final(self).wf(),
            final(self).mode() == old(self).mode(),
            final(self).known() == old(self).known(),
            old(self).killed() ==> v == Verdict::Ignored && *final(self) == *old(self),
            !old(self).killed() ==> {
                &&& final(self).stats().total() == old(self).stats().total() + 1
                &&& final(self).stats().ips() == bumped(old(self).stats().ips(), ip_part(addr@))
                &&& final(self).stats().domains() == match opt_text(*domain) {
                    Some(d) => bumped(old(self).stats().domains(), d),
                    None => old(self).stats().domains(),
                }
                &&& final(self).stats().start() == old(self).stats().start()
                &&& v == match old(self).mode() {
                    ExecutionMode::Normal => Verdict::Reported,
                    ExecutionMode::ExitFirst => Verdict::Kill,
                    ExecutionMode::BlockAndContinue => Verdict::Blocked,
                }
                &&& final(self).killed() == (old(self).mode() == ExecutionMode::ExitFirst)
                &&& final(self).blocked() == old(self).blocked() + if old(self).mode()
                    == ExecutionMode::BlockAndContinue {
                    1nat
                } else {
                    0nat
                }
            },
    {
        if self.killed {
            return Verdict::Ignored;
        }
        self.stats.add_connection(addr, domain);
        match self.mode {
            ExecutionMode::Normal => Verdict::Reported,
            ExecutionMode::ExitFirst => {
                self.killed = true;
                Verdict::Kill
            },
            ExecutionMode::BlockAndContinue => {
                self.blocked = self.blocked + 1;
                Verdict::Blocked
            },
        }
    }

    pub fn mode_of(&self) -> (m: ExecutionMode)
        ensures
            m == self.mode(),
    {
        self.mode
    }

    /// Connections reported as blocked so far.
    pub fn blocked_count(&self) -> (r: u64)
        ensures
            r == self.blocked(),
    {
        self.blocked
    }

    /// Whether the policy has killed the child.
    pub fn is_killed(&self) -> (r: bool)
        ensures
            r == self.killed(),
    {
        self.killed
    }

    /// Connections recorded so far.
    pub fn total_connections(&self) -> (r: u64)
        ensures
            r == self.stats().total(),
    {
        self.stats.total_connections()
    }

    /// The statistics gathered so far.
    pub fn statistics(&self) -> (r: &ConnectionStats)
        requires
            self.wf(),
        ensures
            *r == self.stats(),
            r.wf(),
    {
        &self.stats
    }

    /// The tool's exit code: success after the policy killed the child,
    /// otherwise the child's own code, or 1 where it has none.
    pub fn exit_code(&self, child_code: Option<i32>) -> (r: i32)
        ensures
            r == if self.killed() {
                0
            } else {
                match child_code {
                    Some(c) => c,
                    None => 1,
                }
            },
    {
        if self.killed {
            0
        } else {
            match child_code {
                Some(c) => c,
                None => 1,
            }
        }
    }
}

/// What is known before poll `n` of a run whose successful polls saw
/// `ticks`: nothing before the first.
pub open spec fn known_before(ticks: Seq<Set<Seq<char>>>, n: int) -> Set<Seq<char>> {
    if n == 0 {
        Set::empty()
    } else {
        ticks[n - 1]
    }
}

/// The endpoints reported as new at poll `n`.
pub open spec fn reported_at(ticks: Seq<Set<Seq<char>>>, n: int) -> Set<Seq<char>> {
    new_endpoints(known_before(ticks, n), ticks[n])
}

/// An endpoint reported at two polls was absent from some poll in between:
/// nothing is reported twice unless it disappeared and came back.
pub proof fn lemma_reported_again_only_after_absence(
    ticks: Seq<Set<Seq<char>>>,
    e: Seq<char>,
    n: int,
    m: int,
)
    requires
        0 <= n < m < ticks.len(),
        reported_at(ticks, n).contains(e),
        reported_at(ticks, m).contains(e),
    ensures
        exists|k: int| n < k < m && !(#[trigger] ticks[k]).contains(e),
{
    assert(ticks[n].contains(e));
    assert(!ticks[m - 1].contains(e));
}

/// Under the block policy every new connection is counted as blocked, and
/// the child is never killed.
pub proof fn lemma_block_counts_every_connection(m: Monitor)
    requires
        m.wf(),
        m.mode() == ExecutionMode::BlockAndContinue,
    ensures
        m.blocked() == m.stats().total(),
        !m.killed(),
{
}

/// A poll that sees no endpoints reports nothing new, whatever was known.
pub proof fn lemma_nothing_seen_nothing_new(known: Set<Seq<char>>)
    ensures
        new_endpoints(known, Set::empty()) == Set::<Seq<char>>::empty(),
{
    assert(new_endpoints(known, Set::empty()) =~= Set::<Seq<char>>::empty());
}

/// Only the exit-first policy ever kills the child.
pub proof fn lemma_only_exit_first_kills(m: Monitor)
    requires
        m.wf(),
    ensures
        m.killed() ==> m.mode() == ExecutionMode::ExitFirst,
        m.mode() != ExecutionMode::ExitFirst ==> !m.killed(),
{
}

} // verus!
