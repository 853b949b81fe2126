//! The annals of a cluster: who led in which term with which log, who voted
//! for whom and what they had to show for it, and who has taken up what.
//!
//! They are kept for the proofs alone. What they say of the past is why no
//! entry that a majority has taken up in its leader's term can ever be lost.

use crate::protocol::{term_at, EntryView};
use crate::raft::NUM_SERVERS;
use crate::safety::Ballots;
use vstd::prelude::*;

verus! {

/// The logs are the same up to `n`, and both reach so far.
pub open spec fn agree(a: Seq<EntryView>, b: Seq<EntryView>, n: int) -> bool {
    &&& 0 <= n <= a.len()
    &&& n <= b.len()
    &&& a.take(n) == b.take(n)
}

/// Term of the last entry of `log`.
pub open spec fn last_term(log: Seq<EntryView>) -> u64 {
    term_at(log, log.len() as int)
}

/// A candidate with log `a` may be given the vote of a server with log `b`.
pub open spec fn up_to_date(a: Seq<EntryView>, b: Seq<EntryView>) -> bool {
    last_term(a) > last_term(b) || (last_term(a) == last_term(b) && a.len() >= b.len())
}

/// What has happened in a cluster.
#[verifier::ext_equal]
pub ghost struct Annals {
    /// The servers, by name.
    pub members: Set<u32>,
    /// The term that each server is in.
    pub era: Map<u32, u64>,
    /// Who has voted for whom.
    pub ballots: Ballots,
    /// The log that the leader of a term began with.
    pub founding: Map<u64, Seq<EntryView>>,
    /// The log of the leader of a term.
    pub lore: Map<u64, Seq<EntryView>>,
    /// The leader of a term.
    pub chief: Map<u64, u32>,
    /// Those whose votes made the leader of a term.
    pub electors: Map<u64, Set<u32>>,
    /// The log that a candidate stood for election with in a term.
    pub stood: Map<(u32, u64), Seq<EntryView>>,
    /// The log that a voter had when it voted in a term.
    pub shown: Map<(u32, u64), Seq<EntryView>>,
    /// How much of the log of a term's leader a server has taken up in that
    /// term.
    pub acked: Map<(u32, u64), nat>,
}

impl Annals {
    /// The term has had a leader.
    pub open spec fn led(self, t: u64) -> bool {
        self.founding.contains_key(t)
    }

    /// Place `i`, counted from one, of the log of the leader of `t` is one
    /// that it filled itself.
    pub open spec fn own(self, t: u64, i: int) -> bool {
        self.led(t) && self.founding[t].len() < i <= self.lore[t].len()
    }

    /// How much of the log of the leader of `t` server `v` has taken up.
    pub open spec fn ack(self, v: u32, t: u64) -> int {
        if self.acked.contains_key((v, t)) {
            self.acked[(v, t)] as int
        } else {
            0
        }
    }

    /// The servers in `q` are a majority.
    pub open spec fn quorum(self, q: Set<u32>) -> bool {
        q.subset_of(self.members) && q.len() > NUM_SERVERS / 2
    }

    /// Every entry of `log` is one that a leader wrote, and all before it are
    /// as they were in that leader's log.
    pub open spec fn traced(self, log: Seq<EntryView>) -> bool {
        forall|j: int|
            #![trigger log[j]]
            0 <= j < log.len() ==> {
                &&& log[j].term >= 1
                &&& self.led(log[j].term)
                &&& agree(log, self.lore[log[j].term], j + 1)
            }
    }

    /// The servers in `q` have left term `t` without taking up place `i`.
    pub open spec fn refusing(self, q: Set<u32>, t: u64, i: int) -> bool {
        &&& self.quorum(q)
        &&& forall|v: u32| #[trigger] q.contains(v) ==> self.era[v] > t && self.ack(v, t) < i
    }

    /// Place `i` of term `t` can no longer be committed in that term.
    pub open spec fn blocked(self, t: u64, i: int) -> bool {
        exists|q: Set<u32>| #[trigger] self.refusing(q, t, i)
    }

    /// The servers in `q` have taken up place `i` in term `t`.
    pub open spec fn backing(self, q: Set<u32>, t: u64, i: int) -> bool {
        &&& self.quorum(q)
        &&& forall|v: u32| #[trigger] q.contains(v) ==> self.ack(v, t) >= i
    }

    /// Place `i` of term `t` has been committed in that term.
    pub open spec fn committed(self, t: u64, i: int) -> bool {
        exists|q: Set<u32>| #[trigger] self.backing(q, t, i)
    }

    /// The leader of `t1` began with all that the leader of `t` had up to `i`.
    pub open spec fn keeps(self, t1: u64, t: u64, i: int) -> bool {
        agree(self.founding[t1], self.lore[t], i)
    }

    /// Some leader after `t` and up to `upto` began without place `i` of `t`.
    pub open spec fn overruled(self, t: u64, i: int, upto: u64) -> bool {
        exists|t1: u64| t < t1 <= upto && #[trigger] self.led(t1) && !self.keeps(t1, t, i)
    }

    /// `log` has all that `v` has taken up in terms before `below`, but for
    /// what a leader up to `upto` has overruled.
    pub open spec fn remembers(
        self,
        log: Seq<EntryView>,
        v: u32,
        below: int,
        upto: u64,
    ) -> bool {
        forall|t: u64, i: int|
            #![trigger self.own(t, i)]
            self.own(t, i) && t < below && i <= self.ack(v, t) ==> agree(log, self.lore[t], i)
                || self.overruled(t, i, upto)
    }

    /// What the annals say of term `t` is right.
    pub open spec fn term_right(self, t: u64) -> bool {
        &&& t >= 1
        &&& self.lore.contains_key(t)
        &&& self.chief.contains_key(t)
        &&& self.electors.contains_key(t)
        &&& self.quorum(self.electors[t])
        &&& self.electors[t].contains(self.chief[t])
        &&& forall|v: u32| #[trigger]
            self.electors[t].contains(v) ==> self.ballots.contains_key((v, t)) && self.ballots[(
            v,
            t,
        )] == self.chief[t]
        &&& agree(self.founding[t], self.lore[t], self.founding[t].len() as int)
        &&& forall|j: int|
            #![trigger self.lore[t][j]]
            0 <= j < self.lore[t].len() ==> if j < self.founding[t].len() {
                self.lore[t][j].term < t
            } else {
                self.lore[t][j].term == t
            }
        &&& self.traced(self.lore[t])
        &&& self.stood.contains_key((self.chief[t], t))
        &&& self.stood[(self.chief[t], t)] == self.founding[t]
    }

    /// What the annals say of the vote of `v` in term `t` is right.
    pub open spec fn vote_right(self, v: u32, t: u64) -> bool {
        let c = self.ballots[(v, t)];
        &&& self.members.contains(v)
        &&& t <= self.era[v]
        &&& self.stood.contains_key((c, t))
        &&& self.shown.contains_key((v, t))
        &&& up_to_date(self.stood[(c, t)], self.shown[(v, t)])
        &&& self.traced(self.shown[(v, t)])
        &&& self.remembers(self.shown[(v, t)], v, t as int, t)
    }

    /// What the annals say of the candidacy of `c` in term `t` is right.
    pub open spec fn stand_right(self, c: u32, t: u64) -> bool {
        let log = self.stood[(c, t)];
        &&& self.members.contains(c)
        &&& t <= self.era[c]
        &&& self.traced(log)
        &&& forall|j: int| 0 <= j < log.len() ==> (#[trigger] log[j]).term < t
    }

    /// What the annals say `v` has taken up in term `t` is right.
    pub open spec fn ack_right(self, v: u32, t: u64) -> bool {
        &&& self.members.contains(v)
        &&& t <= self.era[v]
        &&& self.led(t)
        &&& self.acked[(v, t)] <= self.lore[t].len()
    }

    /// What an earlier leader wrote either was there when a later leader
    /// began, or can no longer be committed.
    pub open spec fn safe(self) -> bool {
        forall|t: u64, i: int, t1: u64|
            #![trigger self.own(t, i), self.led(t1)]
            self.own(t, i) && self.led(t1) && t < t1 ==> self.keeps(t1, t, i) || self.blocked(t, i)
    }

    /// The annals are right.
    pub open spec fn right(self) -> bool {
        &&& self.members.finite()
        &&& self.members.len() == NUM_SERVERS
        &&& forall|t: u64| #[trigger] self.led(t) ==> self.term_right(t)
        &&& forall|v: u32, t: u64| #[trigger]
            self.ballots.contains_key((v, t)) ==> self.vote_right(v, t)
        &&& forall|c: u32, t: u64| #[trigger]
            self.stood.contains_key((c, t)) ==> self.stand_right(c, t)
        &&& forall|v: u32, t: u64| #[trigger]
            self.acked.contains_key((v, t)) ==> self.ack_right(v, t)
        &&& forall|k: (u32, u64)| #[trigger]
            self.shown.contains_key(k) ==> self.ballots.contains_key(k)
        &&& self.safe()
    }

    /// The annals have been continued to `n`, with `v` the one who acted.
    pub open spec fn grows(self, n: Annals, v: u32) -> bool {
        &&& n.members == self.members
        &&& forall|x: u32| #![trigger n.era[x]] x != v ==> n.era[x] == self.era[x]
        &&& n.era[v] >= self.era[v]
        &&& forall|t: u64| #[trigger]
            self.led(t) ==> {
                &&& n.led(t)
                &&& n.founding[t] == self.founding[t]
                &&& n.chief[t] == self.chief[t]
                &&& n.electors[t] == self.electors[t]
                &&& agree(self.lore[t], n.lore[t], self.lore[t].len() as int)
                &&& self.chief[t] != v ==> n.lore[t] == self.lore[t]
            }
        &&& forall|t: u64| #[trigger] n.led(t) && !self.led(t) ==> n.chief[t] == v
        &&& forall|k: (u32, u64)| #[trigger]
            self.ballots.contains_key(k) ==> n.ballots.contains_key(k) && n.ballots[k]
                == self.ballots[k]
        &&& forall|k: (u32, u64)| #[trigger]
            self.stood.contains_key(k) ==> n.stood.contains_key(k) && n.stood[k] == self.stood[k]
        &&& forall|k: (u32, u64)| #[trigger]
            self.shown.contains_key(k) ==> n.shown.contains_key(k) && n.shown[k] == self.shown[k]
        &&& forall|x: u32, t: u64|
            #![trigger n.ack(x, t)]
            #![trigger self.ack(x, t)]
            self.ack(x, t) <= n.ack(x, t) && (x != v || t < self.era[v] ==> n.ack(x, t)
                == self.ack(x, t))
    }
}

impl Annals {
    /// What these annals say of leaders, and of what has been committed, `n`
    /// says too.
    pub open spec fn leads_to(self, n: Annals) -> bool {
        &&& forall|t: u64| #[trigger]
            self.led(t) ==> {
                &&& n.led(t)
                &&& n.founding[t] == self.founding[t]
                &&& n.chief[t] == self.chief[t]
                &&& agree(self.lore[t], n.lore[t], self.lore[t].len() as int)
            }
        &&& forall|t: u64, i: int| #[trigger] self.committed(t, i) ==> n.committed(t, i)
    }
}

// ----- logs -----

/// Logs that agree up to a place agree up to every earlier one.
pub proof fn lemma_agree_less(a: Seq<EntryView>, b: Seq<EntryView>, n: int, k: int)
    requires
        agree(a, b, n),
        0 <= k <= n,
    ensures
        agree(a, b, k),
        agree(b, a, k),
{
    assert(a.take(k) =~= a.take(n).take(k));
    assert(b.take(k) =~= b.take(n).take(k));
}

/// Logs that agree with the same one agree with each other.
pub proof fn lemma_agree_transitive(
    a: Seq<EntryView>,
    b: Seq<EntryView>,
    c: Seq<EntryView>,
    n: int,
    k: int,
)
    requires
        agree(a, b, n),
        agree(b, c, k),
    ensures
        agree(a, c, if n < k {
            n
        } else {
            k
        }),
{
    let x = if n < k {
        n
    } else {
        k
    };
    lemma_agree_less(a, b, n, x);
    lemma_agree_less(b, c, k, x);
}

/// Logs that agree have the same entries.
pub proof fn lemma_agree_at(a: Seq<EntryView>, b: Seq<EntryView>, n: int, j: int)
    requires
        agree(a, b, n),
        0 <= j < n,
    ensures
        a[j] == b[j],
        term_at(a, j + 1) == term_at(b, j + 1),
{
    assert(a.take(n)[j] == b.take(n)[j]);
}

impl Annals {
    /// A part of a traced log from its beginning is traced.
    pub proof fn lemma_traced_take(self, log: Seq<EntryView>, n: int)
        requires
            self.traced(log),
            0 <= n <= log.len(),
        ensures
            self.traced(log.take(n)),
    {
        let part = log.take(n);
        assert forall|j: int|
            #![trigger part[j]]
            0 <= j < part.len() implies {
            &&& part[j].term >= 1
            &&& self.led(part[j].term)
            &&& agree(part, self.lore[part[j].term], j + 1)
        } by {
            assert(part[j] == log[j]);
            assert(part.take(j + 1) =~= log.take(j + 1));
        }
    }

    /// A traced log is, as a whole, the beginning of the log of the leader who
    /// wrote its last entry; no entry is of a later term.
    pub proof fn lemma_traced_last(self, log: Seq<EntryView>)
        requires
            self.right(),
            self.traced(log),
            log.len() > 0,
        ensures
            self.led(last_term(log)),
            self.own(last_term(log), log.len() as int),
            agree(log, self.lore[last_term(log)], log.len() as int),
            forall|j: int|
                0 <= j < log.len() ==> (#[trigger] log[j]).term <= last_term(log),
    {
        let n = log.len() as int;
        let w = last_term(log);
        assert(log[n - 1].term == w);
        assert(self.term_right(w));
        lemma_agree_at(log, self.lore[w], n, n - 1);
        assert(self.lore[w][n - 1].term == w);
        assert forall|j: int| 0 <= j < log.len() implies (#[trigger] log[j]).term <= w by {
            lemma_agree_at(log, self.lore[w], n, j);
            assert(self.lore[w][j] == log[j]);
        }
    }

    /// Two traced logs with an entry of the same term at the same place are
    /// the same up to there.
    pub proof fn lemma_traced_match(self, a: Seq<EntryView>, b: Seq<EntryView>, j: int)
        requires
            self.traced(a),
            self.traced(b),
            0 <= j < a.len(),
            j < b.len(),
            a[j].term == b[j].term,
        ensures
            agree(a, b, j + 1),
    {
        let u = a[j].term;
        assert(agree(a, self.lore[u], j + 1));
        assert(agree(b, self.lore[b[j].term], j + 1));
    }

    /// Two quorums have a member in common.
    pub proof fn lemma_quorums_meet(self, p: Set<u32>, q: Set<u32>) -> (v: u32)
        requires
            self.members.finite(),
            self.members.len() == NUM_SERVERS,
            self.quorum(p),
            self.quorum(q),
        ensures
            p.contains(v),
            q.contains(v),
    {
        vstd::set_lib::lemma_len_subset(p, self.members);
        vstd::set_lib::lemma_len_subset(q, self.members);
        if p.disjoint(q) {
            vstd::set_lib::lemma_set_disjoint_lens(p, q);
            vstd::set_lib::lemma_len_subset(p + q, self.members);
            assert(false);
        }
        choose|v: u32| p.contains(v) && q.contains(v)
    }

    /// What has been committed in its term is there when any later leader
    /// begins.
    pub proof fn lemma_committed_kept(self, t: u64, i: int, t1: u64)
        requires
            self.right(),
            self.own(t, i),
            self.committed(t, i),
            self.led(t1),
            t < t1,
        ensures
            self.keeps(t1, t, i),
    {
        if self.blocked(t, i) {
            let p = choose|q: Set<u32>| #[trigger] self.refusing(q, t, i);
            let q = choose|q: Set<u32>| #[trigger] self.backing(q, t, i);
            let v = self.lemma_quorums_meet(p, q);
            assert(self.ack(v, t) < i);
            assert(self.ack(v, t) >= i);
        }
    }
}

// ----- what stays right as the annals go on -----

impl Annals {
    /// A traced log stays traced.
    pub proof fn lemma_grown_traced(self, n: Annals, v: u32, log: Seq<EntryView>)
        requires
            self.grows(n, v),
            self.traced(log),
        ensures
            n.traced(log),
    {
        assert forall|j: int|
            #![trigger log[j]]
            0 <= j < log.len() implies {
            &&& log[j].term >= 1
            &&& n.led(log[j].term)
            &&& agree(log, n.lore[log[j].term], j + 1)
        } by {
            let u = log[j].term;
            assert(self.led(u));
            lemma_agree_transitive(
                log,
                self.lore[u],
                n.lore[u],
                j + 1,
                self.lore[u].len() as int,
            );
        }
    }

    /// What a later leader keeps of an earlier one does not change.
    pub proof fn lemma_grown_keeps(self, n: Annals, v: u32, t1: u64, t: u64, i: int)
        requires
            self.grows(n, v),
            self.led(t1),
            self.own(t, i),
        ensures
            n.own(t, i),
            n.keeps(t1, t, i) == self.keeps(t1, t, i),
            agree(self.lore[t], n.lore[t], i),
    {
        lemma_agree_less(self.lore[t], n.lore[t], self.lore[t].len() as int, i);
    }

    /// What can no longer be committed never can be.
    pub proof fn lemma_grown_blocked(self, n: Annals, v: u32, t: u64, i: int)
        requires
            self.grows(n, v),
            self.blocked(t, i),
        ensures
            n.blocked(t, i),
    {
        let q = choose|q: Set<u32>| #[trigger] self.refusing(q, t, i);
        assert forall|x: u32| #[trigger] q.contains(x) implies n.era[x] > t && n.ack(x, t) < i by {
            assert(self.era[x] > t && self.ack(x, t) < i);
            if x != v {
                assert(n.era[x] == self.era[x]);
            }
        }
        assert(n.refusing(q, t, i));
    }

    /// What has been committed stays so.
    pub proof fn lemma_grown_committed(self, n: Annals, v: u32, t: u64, i: int)
        requires
            self.grows(n, v),
            self.committed(t, i),
        ensures
            n.committed(t, i),
    {
        let q = choose|q: Set<u32>| #[trigger] self.backing(q, t, i);
        assert forall|x: u32| #[trigger] q.contains(x) implies n.ack(x, t) >= i by {
            assert(self.ack(x, t) >= i);
        }
        assert(n.backing(q, t, i));
    }

    /// Annals that have been continued lead to what they have become.
    pub proof fn lemma_grown_leads_to(self, n: Annals, v: u32)
        requires
            self.grows(n, v),
        ensures
            self.leads_to(n),
    {
        assert forall|t: u64, i: int| #[trigger] self.committed(t, i) implies n.committed(t, i) by {
            self.lemma_grown_committed(n, v, t, i);
        }
    }

    /// What leads on step by step leads on.
    pub proof fn lemma_leads_to_transitive(self, m: Annals, n: Annals)
        requires
            self.leads_to(m),
            m.leads_to(n),
        ensures
            self.leads_to(n),
    {
        assert forall|t: u64| #[trigger] self.led(t) implies {
            &&& n.led(t)
            &&& n.founding[t] == self.founding[t]
            &&& n.chief[t] == self.chief[t]
            &&& agree(self.lore[t], n.lore[t], self.lore[t].len() as int)
        } by {
            assert(m.led(t));
            let k = self.lore[t].len() as int;
            lemma_agree_transitive(self.lore[t], m.lore[t], n.lore[t], k, m.lore[t].len() as int);
        }
    }

    /// What has been overruled stays so.
    pub proof fn lemma_grown_overruled(self, n: Annals, v: u32, t: u64, i: int, upto: u64)
        requires
            self.grows(n, v),
            self.own(t, i),
            self.overruled(t, i, upto),
        ensures
            n.overruled(t, i, upto),
    {
        let t1 = choose|t1: u64| t < t1 <= upto && #[trigger] self.led(t1) && !self.keeps(t1, t, i);
        self.lemma_grown_keeps(n, v, t1, t, i);
        assert(n.led(t1));
    }

    /// Overruled up to some term is overruled up to any later one.
    pub proof fn lemma_overruled_later(self, t: u64, i: int, upto: u64, later: u64)
        requires
            self.overruled(t, i, upto),
            upto <= later,
        ensures
            self.overruled(t, i, later),
    {
        let t1 = choose|t1: u64| t < t1 <= upto && #[trigger] self.led(t1) && !self.keeps(t1, t, i);
        assert(self.led(t1));
    }

    /// A place that somebody has taken up is there.
    pub proof fn lemma_ack_own(self, n: Annals, v: u32, x: u32, t: u64, i: int)
        requires
            self.right(),
            self.grows(n, v),
            n.own(t, i),
            i <= self.ack(x, t),
        ensures
            self.own(t, i),
    {
        assert(self.acked.contains_key((x, t)));
        assert(self.ack_right(x, t));
    }

    /// A log goes on remembering what it remembers.
    pub proof fn lemma_grown_remembers(
        self,
        n: Annals,
        v: u32,
        log: Seq<EntryView>,
        x: u32,
        below: int,
        upto: u64,
    )
        requires
            self.right(),
            self.grows(n, v),
            self.remembers(log, x, below, upto),
            forall|t: u64| t < below ==> #[trigger] n.ack(x, t) == self.ack(x, t),
        ensures
            n.remembers(log, x, below, upto),
    {
        assert forall|t: u64, i: int|
            #![trigger n.own(t, i)]
            n.own(t, i) && t < below && i <= n.ack(x, t) implies agree(log, n.lore[t], i)
            || n.overruled(t, i, upto) by {
            self.lemma_ack_own(n, v, x, t, i);
            if agree(log, self.lore[t], i) {
                lemma_agree_less(self.lore[t], n.lore[t], self.lore[t].len() as int, i);
            } else {
                self.lemma_grown_overruled(n, v, t, i, upto);
            }
        }
    }

    /// Whatever was right before is right afterwards.
    pub proof fn lemma_grown_right(self, n: Annals, v: u32)
        requires
            self.right(),
            self.grows(n, v),
        ensures
            forall|t: u64| #[trigger]
                self.led(t) && n.lore.contains_key(t) && n.chief.contains_key(t)
                    && n.electors.contains_key(t) && n.lore[t] == self.lore[t] ==> n.term_right(t),
            forall|x: u32, t: u64| #[trigger]
                self.ballots.contains_key((x, t)) ==> n.vote_right(x, t),
            forall|c: u32, t: u64| #[trigger]
                self.stood.contains_key((c, t)) ==> n.stand_right(c, t),
            forall|t: u64, i: int, t1: u64|
                #![trigger self.own(t, i), self.led(t1)]
                self.own(t, i) && self.led(t1) && t < t1 ==> n.keeps(t1, t, i) || n.blocked(t, i),
    {
        assert forall|t: u64| #[trigger]
            self.led(t) && n.lore.contains_key(t) && n.chief.contains_key(t)
                && n.electors.contains_key(t) && n.lore[t] == self.lore[t] implies n.term_right(
            t,
        ) by {
            assert(self.term_right(t));
            self.lemma_grown_traced(n, v, self.lore[t]);
            assert forall|x: u32| #[trigger] n.electors[t].contains(x) implies n.ballots.contains_key(
                (x, t),
            ) && n.ballots[(x, t)] == n.chief[t] by {
                assert(self.electors[t].contains(x));
            }
        }
        assert forall|x: u32, t: u64| #[trigger]
            self.ballots.contains_key((x, t)) implies n.vote_right(x, t) by {
            assert(self.vote_right(x, t));
            let c = self.ballots[(x, t)];
            assert(self.stood.contains_key((c, t)));
            assert(self.shown.contains_key((x, t)));
            assert(n.era[x] >= self.era[x]);
            self.lemma_grown_traced(n, v, self.shown[(x, t)]);
            self.lemma_grown_remembers(n, v, self.shown[(x, t)], x, t as int, t);
        }
        assert forall|c: u32, t: u64| #[trigger]
            self.stood.contains_key((c, t)) implies n.stand_right(c, t) by {
            assert(self.stand_right(c, t));
            assert(n.era[c] >= self.era[c]);
            self.lemma_grown_traced(n, v, self.stood[(c, t)]);
        }
        assert forall|t: u64, i: int, t1: u64|
            #![trigger self.own(t, i), self.led(t1)]
            self.own(t, i) && self.led(t1) && t < t1 implies n.keeps(t1, t, i) || n.blocked(
            t,
            i,
        ) by {
            self.lemma_grown_keeps(n, v, t1, t, i);
            if !self.keeps(t1, t, i) {
                self.lemma_grown_blocked(n, v, t, i);
            }
        }
    }
}

// ----- how the annals go on -----

impl Annals {
    /// `v` comes to term `t`.
    pub open spec fn moved_on(self, v: u32, t: u64) -> Annals {
        Annals { era: self.era.insert(v, t), ..self }
    }

    /// `v` stands for election in term `t`, and votes for itself.
    pub open spec fn candidacy(self, v: u32, t: u64, log: Seq<EntryView>) -> Annals {
        Annals {
            era: self.era.insert(v, t),
            stood: self.stood.insert((v, t), log),
            ballots: self.ballots.insert((v, t), v),
            shown: self.shown.insert((v, t), log),
            ..self
        }
    }

    /// `v` votes for `c` in term `t`.
    pub open spec fn vote(self, v: u32, t: u64, c: u32, log: Seq<EntryView>) -> Annals {
        Annals {
            ballots: self.ballots.insert((v, t), c),
            shown: self.shown.insert((v, t), log),
            ..self
        }
    }

    /// `v` has been elected in term `t` by `q`.
    pub open spec fn election(self, v: u32, t: u64, q: Set<u32>) -> Annals {
        Annals {
            founding: self.founding.insert(t, self.stood[(v, t)]),
            lore: self.lore.insert(t, self.stood[(v, t)]),
            chief: self.chief.insert(t, v),
            electors: self.electors.insert(t, q),
            ..self
        }
    }

    /// The leader of `t` writes an entry.
    pub open spec fn entry(self, t: u64, e: EntryView) -> Annals {
        Annals { lore: self.lore.insert(t, self.lore[t].push(e)), ..self }
    }

    /// `v` has taken up the log of the leader of `t` up to `k`.
    pub open spec fn taking_up(self, v: u32, t: u64, k: int) -> Annals {
        Annals {
            acked: self.acked.insert(
                (v, t),
                if self.ack(v, t) < k {
                    k as nat
                } else {
                    self.ack(v, t) as nat
                },
            ),
            ..self
        }
    }

    /// The annals stay right when a server comes to a later term.
    pub proof fn lemma_moved_on(self, v: u32, t: u64)
        requires
            self.right(),
            t >= self.era[v],
        ensures
            self.moved_on(v, t).right(),
            self.grows(self.moved_on(v, t), v),
    {
        let n = self.moved_on(v, t);
        assert(self.grows(n, v)) by {
            self.lemma_same_lore(n, v);
        }
        self.lemma_grown_right(n, v);
        assert forall|x: u32, u: u64| #[trigger] n.acked.contains_key((x, u)) implies n.ack_right(
            x,
            u,
        ) by {
            assert(self.ack_right(x, u));
        }
        self.lemma_still_right(n, v);
    }

    /// Annals with the same logs of leaders.
    proof fn lemma_same_lore(self, n: Annals, v: u32)
        requires
            self.right(),
            n.lore == self.lore,
        ensures
            forall|t: u64| #[trigger]
                self.led(t) ==> agree(self.lore[t], n.lore[t], self.lore[t].len() as int),
    {
    }

    /// Annals in which no term or log of a leader is new.
    proof fn lemma_still_right(self, n: Annals, v: u32)
        requires
            self.right(),
            self.grows(n, v),
            n.founding == self.founding,
            n.lore == self.lore,
            n.chief == self.chief,
            n.electors == self.electors,
        ensures
            forall|t: u64| #[trigger] n.led(t) ==> n.term_right(t),
            n.safe(),
    {
        self.lemma_grown_right(n, v);
        assert forall|t: u64| #[trigger] n.led(t) implies n.term_right(t) by {
            assert(self.led(t));
            assert(self.term_right(t));
        }
        assert forall|t: u64, i: int, t1: u64|
            #![trigger n.own(t, i), n.led(t1)]
            n.own(t, i) && n.led(t1) && t < t1 implies n.keeps(t1, t, i) || n.blocked(t, i) by {
            assert(self.own(t, i) && self.led(t1));
        }
    }

    /// The annals stay right when a server stands for election.
    pub proof fn lemma_candidacy(self, v: u32, t: u64, log: Seq<EntryView>)
        requires
            self.right(),
            self.members.contains(v),
            t > self.era[v],
            self.traced(log),
            forall|j: int| 0 <= j < log.len() ==> (#[trigger] log[j]).term < t,
            self.remembers(log, v, self.era[v] + 1, self.era[v]),
        ensures
            self.candidacy(v, t, log).right(),
            self.grows(self.candidacy(v, t, log), v),
    {
        let n = self.candidacy(v, t, log);
        if self.stood.contains_key((v, t)) {
            assert(self.stand_right(v, t));
        }
        if self.ballots.contains_key((v, t)) {
            assert(self.vote_right(v, t));
        }
        if self.shown.contains_key((v, t)) {
            assert(self.ballots.contains_key((v, t)));
        }
        self.lemma_same_lore(n, v);
        assert(self.grows(n, v));
        self.lemma_grown_right(n, v);
        self.lemma_still_right(n, v);
        self.lemma_grown_traced(n, v, log);
        assert forall|x: u32, u: u64| #[trigger] n.acked.contains_key((x, u)) implies n.ack_right(
            x,
            u,
        ) by {
            assert(self.ack_right(x, u));
        }
        assert(n.remembers(log, v, t as int, t)) by {
            assert forall|u: u64, i: int|
                #![trigger n.own(u, i)]
                n.own(u, i) && u < t && i <= n.ack(v, u) implies agree(log, n.lore[u], i)
                || n.overruled(u, i, t) by {
                assert(n.ack(v, u) == self.ack(v, u));
                assert(self.ack_right(v, u));
                assert(self.own(u, i));
                if !agree(log, self.lore[u], i) {
                    self.lemma_grown_overruled(n, v, u, i, self.era[v]);
                    n.lemma_overruled_later(u, i, self.era[v], t);
                }
            }
        }
        assert forall|x: u32, u: u64| #[trigger] n.ballots.contains_key((x, u)) implies n.vote_right(
            x,
            u,
        ) by {
            if (x, u) != (v, t) {
                assert(self.ballots.contains_key((x, u)));
            }
        }
        assert forall|c: u32, u: u64| #[trigger] n.stood.contains_key((c, u)) implies n.stand_right(
            c,
            u,
        ) by {
            if (c, u) != (v, t) {
                assert(self.stood.contains_key((c, u)));
            }
        }
    }

    /// The annals stay right when a server votes.
    pub proof fn lemma_vote(self, v: u32, t: u64, c: u32, log: Seq<EntryView>)
        requires
            self.right(),
            self.members.contains(v),
            t == self.era[v],
            !self.ballots.contains_key((v, t)),
            self.stood.contains_key((c, t)),
            up_to_date(self.stood[(c, t)], log),
            self.traced(log),
            self.remembers(log, v, t + 1, t),
        ensures
            self.vote(v, t, c, log).right(),
            self.grows(self.vote(v, t, c, log), v),
    {
        let n = self.vote(v, t, c, log);
        assert(!self.shown.contains_key((v, t)));
        self.lemma_same_lore(n, v);
        assert(self.grows(n, v));
        self.lemma_grown_right(n, v);
        self.lemma_still_right(n, v);
        self.lemma_grown_traced(n, v, log);
        self.lemma_grown_remembers(n, v, log, v, t + 1, t);
        assert forall|x: u32, u: u64| #[trigger] n.acked.contains_key((x, u)) implies n.ack_right(
            x,
            u,
        ) by {
            assert(self.ack_right(x, u));
        }
        assert forall|x: u32, u: u64| #[trigger] n.ballots.contains_key((x, u)) implies n.vote_right(
            x,
            u,
        ) by {
            if (x, u) != (v, t) {
                assert(self.ballots.contains_key((x, u)));
            }
        }
    }

    /// The annals stay right when a server takes up entries.
    pub proof fn lemma_taking_up(self, v: u32, t: u64, k: int)
        requires
            self.right(),
            self.members.contains(v),
            t == self.era[v],
            self.led(t),
            0 <= k <= self.lore[t].len(),
        ensures
            self.taking_up(v, t, k).right(),
            self.grows(self.taking_up(v, t, k), v),
            self.taking_up(v, t, k).ack(v, t) >= k,
            forall|u: u64| u != t ==> #[trigger] self.taking_up(v, t, k).ack(v, u) == self.ack(v, u),
            self.taking_up(v, t, k).ack(v, t) == k || self.taking_up(v, t, k).ack(v, t) == self.ack(
                v,
                t,
            ),
    {
        let n = self.taking_up(v, t, k);
        self.lemma_same_lore(n, v);
        assert(self.grows(n, v));
        self.lemma_grown_right(n, v);
        self.lemma_still_right(n, v);
        assert forall|x: u32, u: u64| #[trigger] n.acked.contains_key((x, u)) implies n.ack_right(
            x,
            u,
        ) by {
            if self.acked.contains_key((x, u)) {
                assert(self.ack_right(x, u));
            }
        }
    }

    /// The annals stay right when a leader writes an entry.
    pub proof fn lemma_entry(self, t: u64, e: EntryView)
        requires
            self.right(),
            self.led(t),
            e.term == t,
        ensures
            self.entry(t, e).right(),
            self.grows(self.entry(t, e), self.chief[t]),
    {
        let n = self.entry(t, e);
        let v = self.chief[t];
        assert(self.term_right(t));
        assert(n.lore[t].take(self.lore[t].len() as int) =~= self.lore[t]);
        assert(self.lore[t].take(self.lore[t].len() as int) =~= self.lore[t]);
        assert(self.grows(n, v));
        self.lemma_grown_right(n, v);
        assert forall|u: u64| #[trigger] n.led(u) implies n.term_right(u) by {
            assert(self.led(u));
            assert(self.term_right(u));
            if u == t {
                let log = n.lore[t];
                let k = self.lore[t].len() as int;
                self.lemma_grown_traced(n, v, self.lore[t]);
                assert forall|j: int|
                    #![trigger log[j]]
                    0 <= j < log.len() implies {
                    &&& log[j].term >= 1
                    &&& n.led(log[j].term)
                    &&& agree(log, n.lore[log[j].term], j + 1)
                } by {
                    if j < k {
                        assert(self.lore[t][j] == log[j]);
                        assert(log.take(j + 1) =~= self.lore[t].take(j + 1));
                    }
                }
                assert forall|j: int|
                    #![trigger n.lore[t][j]]
                    0 <= j < n.lore[t].len() implies if j < n.founding[t].len() {
                    n.lore[t][j].term < t
                } else {
                    n.lore[t][j].term == t
                } by {
                    if j < k {
                        assert(self.lore[t][j] == n.lore[t][j]);
                    }
                }
                lemma_agree_transitive(
                    self.founding[t],
                    self.lore[t],
                    n.lore[t],
                    self.founding[t].len() as int,
                    k,
                );
                assert forall|x: u32| #[trigger] n.electors[t].contains(
                    x,
                ) implies n.ballots.contains_key((x, t)) && n.ballots[(x, t)] == n.chief[t] by {
                    assert(self.electors[t].contains(x));
                }
            }
        }
        assert forall|x: u32, u: u64| #[trigger] n.acked.contains_key((x, u)) implies n.ack_right(
            x,
            u,
        ) by {
            assert(self.ack_right(x, u));
        }
        assert forall|u: u64, i: int, t1: u64|
            #![trigger n.own(u, i), n.led(t1)]
            n.own(u, i) && n.led(t1) && u < t1 implies n.keeps(t1, u, i) || n.blocked(u, i) by {
            assert(self.led(u) && self.led(t1));
            if !self.own(u, i) {
                let q = n.electors[t1];
                assert(self.term_right(t1));
                assert forall|x: u32| #[trigger] q.contains(x) implies n.era[x] > u && n.ack(x, u)
                    < i by {
                    assert(self.electors[t1].contains(x));
                    assert(self.ballots.contains_key((x, t1)));
                    assert(self.vote_right(x, t1));
                    if self.acked.contains_key((x, u)) {
                        assert(self.ack_right(x, u));
                    }
                }
                assert(n.refusing(q, u, i));
            }
        }
    }
}

impl Annals {
    /// A candidate whose log is up to date has what the voter has of an
    /// earlier term, unless that can no longer be committed.
    proof fn lemma_candidate_has(self, c: u32, t: u64, b: Seq<EntryView>, u: u64, i: int)
        requires
            self.right(),
            self.stood.contains_key((c, t)),
            up_to_date(self.stood[(c, t)], b),
            self.traced(b),
            self.own(u, i),
            agree(b, self.lore[u], i),
        ensures
            agree(self.stood[(c, t)], self.lore[u], i) || self.blocked(u, i),
    {
        let a = self.stood[(c, t)];
        let (la, lb) = (last_term(a), last_term(b));
        assert(self.stand_right(c, t));
        assert(self.term_right(u));
        self.lemma_traced_last(b);
        lemma_agree_at(b, self.lore[u], i, i - 1);
        assert(self.lore[u][i - 1].term == u);
        assert(b[i - 1].term <= lb);
        self.lemma_traced_last(a);
        if la == lb {
            lemma_agree_less(b, self.lore[lb], b.len() as int, i);
            lemma_agree_less(a, self.lore[la], a.len() as int, i);
        } else if self.keeps(la, u, i) {
            assert(self.term_right(la));
            let f = self.founding[la];
            lemma_agree_less(f, self.lore[la], f.len() as int, i);
            lemma_agree_less(a, self.lore[la], a.len() as int, i);
        } else {
            assert(self.own(u, i) && self.led(la));
        }
    }

    /// Why a leader has, when it begins, all that may have been committed.
    proof fn lemma_election_safe(self, v: u32, t: u64, q: Set<u32>, u: u64, i: int)
        requires
            self.right(),
            !self.led(t),
            self.stood.contains_key((v, t)),
            self.quorum(q),
            forall|x: u32| #[trigger]
                q.contains(x) ==> self.ballots.contains_key((x, t)) && self.ballots[(x, t)] == v,
            self.own(u, i),
            u < t,
        ensures
            agree(self.stood[(v, t)], self.lore[u], i) || self.blocked(u, i),
    {
        if self.overruled(u, i, t) {
            let t1 = choose|t1: u64| u < t1 <= t && #[trigger] self.led(t1) && !self.keeps(t1, u, i);
            assert(self.own(u, i) && self.led(t1));
        } else if forall|x: u32| #[trigger] q.contains(x) ==> self.ack(x, u) < i {
            assert forall|x: u32| #[trigger] q.contains(x) implies self.era[x] > u && self.ack(x, u)
                < i by {
                assert(self.ballots.contains_key((x, t)));
                assert(self.vote_right(x, t));
            }
            assert(self.refusing(q, u, i));
        } else {
            let x = choose|x: u32| #[trigger] q.contains(x) && self.ack(x, u) >= i;
            assert(self.ballots.contains_key((x, t)));
            assert(self.vote_right(x, t));
            self.lemma_candidate_has(v, t, self.shown[(x, t)], u, i);
        }
    }

    /// The annals stay right when a leader is elected.
    pub proof fn lemma_election(self, v: u32, t: u64, q: Set<u32>)
        requires
            self.right(),
            t >= 1,
            !self.led(t),
            self.stood.contains_key((v, t)),
            self.quorum(q),
            q.contains(v),
            forall|x: u32| #[trigger]
                q.contains(x) ==> self.ballots.contains_key((x, t)) && self.ballots[(x, t)] == v,
        ensures
            self.election(v, t, q).right(),
            self.grows(self.election(v, t, q), v),
    {
        let n = self.election(v, t, q);
        let log = self.stood[(v, t)];
        assert(self.stand_right(v, t));
        assert(self.grows(n, v));
        self.lemma_grown_right(n, v);
        self.lemma_grown_traced(n, v, log);
        assert forall|u: u64| #[trigger] n.led(u) implies n.term_right(u) by {
            if u == t {
                assert forall|j: int|
                    #![trigger n.lore[t][j]]
                    0 <= j < n.lore[t].len() implies n.lore[t][j].term < t by {
                    assert(log[j].term < t);
                }
            } else {
                assert(self.led(u));
                assert(self.term_right(u));
            }
        }
        assert forall|x: u32, u: u64| #[trigger] n.acked.contains_key((x, u)) implies n.ack_right(
            x,
            u,
        ) by {
            assert(self.ack_right(x, u));
        }
        assert forall|u: u64, i: int, t1: u64|
            #![trigger n.own(u, i), n.led(t1)]
            n.own(u, i) && n.led(t1) && u < t1 implies n.keeps(t1, u, i) || n.blocked(u, i) by {
            assert(u != t);
            assert(self.own(u, i));
            if t1 == t {
                self.lemma_election_safe(v, t, q, u, i);
                if self.blocked(u, i) {
                    self.lemma_grown_blocked(n, v, u, i);
                }
            } else {
                assert(self.led(t1));
            }
        }
    }
}

} // verus!
