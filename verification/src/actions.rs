//! What the user can do to the cluster.

use crate::peer_map::make_map;
use crate::protocol::{peers_of, running_timers, ModelView, ServerView, Sim};
use crate::raft::{
    entry_views, lemma_server_views_update, make_election_alarm, message_views, server,
    server_views, LogEntry, Model, ServerState, MAX_RPC_LATENCY, NUM_SERVERS,
};
use crate::tick::{lemma_filter_push, lemma_filtered};
use crate::util::{RandomSource, INF};
use vstd::prelude::*;
use vstd::relations::{sorted_by, total_ordering};

verus! {

/// The order of times.
pub open spec fn earlier() -> spec_fn(u64, u64) -> bool {
    |a: u64, b: u64| a <= b
}

/// Puts `x` in its place among times that are in order.
fn insert_in_order(times: &mut Vec<u64>, x: u64)
    requires
        sorted_by(old(times)@, earlier()),
    ensures
        sorted_by(final(times)@, earlier()),
        final(times)@.to_multiset() == old(times)@.to_multiset().insert(x),
{
    let mut i: usize = times.len();
    while i > 0 && times[i - 1] > x
        invariant
            sorted_by(times@, earlier()),
            i <= times@.len(),
            forall|j: int| i <= j < times@.len() ==> times@[j] > x,
        decreases i,
    {
        i -= 1;
    }
    let ghost before = times@;
    times.insert(i, x);
    proof {
        broadcast use vstd::seq_lib::group_to_multiset_ensures;

        assert(times@.remove(i as int) =~= before);
        assert(times@.to_multiset().remove(x) =~= before.to_multiset());
        assert(times@.contains(times@[i as int]));
        assert(times@.to_multiset() =~= before.to_multiset().insert(x));
        assert forall|a: int| 0 <= a < i implies #[trigger] before[a] <= x by {
            if a < i - 1 {
                assert(earlier()(before[a], before[i - 1]));
            }
        }
        assert forall|a: int, b: int| 0 <= a < b < times@.len() implies #[trigger] earlier()(
            times@[a],
            times@[b],
        ) by {
            let a0 = if a < i {
                a
            } else {
                a - 1
            };
            let b0 = if b < i {
                b
            } else {
                b - 1
            };
            if a != i && b != i {
                assert(earlier()(before[a0], before[b0]));
            }
        }
    }
}

/// The server as it is with another election timer.
pub open spec fn with_alarm(s: ServerView, alarm: u64) -> ServerView {
    ServerView { election_alarm: alarm, ..s }
}

impl Model {
    /// The running election timers, earliest first.
    fn timers(&self) -> (times: Vec<u64>)
        ensures
            times@ == self@.timers(),
    {
        let ghost servers = self@.servers;
        let ghost runs = |s: ServerView| s.timer_runs(self.time);
        let mut times: Vec<u64> = Vec::new();
        let mut i: usize = 0;
        assert(running_timers(servers.take(0), self.time) =~= Seq::empty()) by {
            reveal(Seq::filter);
        }
        while i < self.servers.len()
            invariant
                servers == server_views(self.servers@),
                runs == (|s: ServerView| s.timer_runs(self.time)),
                i <= self.servers@.len(),
                sorted_by(times@, earlier()),
                times@.to_multiset() == running_timers(
                    servers.take(i as int),
                    self.time,
                ).to_multiset(),
            decreases self.servers.len() - i,
        {
            let s = &self.servers[i];
            proof {
                broadcast use vstd::seq_lib::group_to_multiset_ensures;

                assert(servers[i as int] == s@);
                assert(servers.take(i + 1) =~= servers.take(i as int).push(s@));
                lemma_filter_push(servers.take(i as int), s@, runs);
                let r0 = running_timers(servers.take(i as int), self.time);
                let r1 = running_timers(servers.take(i + 1), self.time);
                if s@.timer_runs(self.time) {
                    assert(r1 =~= r0.push(s.election_alarm));
                } else {
                    assert(r1 =~= r0);
                }
            }
            if s.election_alarm > self.time && s.election_alarm < INF {
                insert_in_order(&mut times, s.election_alarm);
            }
            i += 1;
        }
        proof {
            assert(servers.take(i as int) =~= servers);
            let all = running_timers(servers, self.time);
            assert(total_ordering(earlier()));
            all.lemma_sort_by_ensures(earlier());
            vstd::seq_lib::lemma_sorted_unique(times@, all.sort_by(earlier()), earlier());
            assert(earlier() =~= |a: u64, b: u64| a <= b);
        }
        times
    }

    /// Takes server `si` down.
    pub fn stop(&mut self, si: usize)
        requires
            si < old(self).servers@.len(),
        ensures
            final(self)@ == old(self)@.stopped(si as int),
    {
        broadcast use lemma_server_views_update;

        let s = &mut self.servers[si];
        s.state = ServerState::Stopped;
        s.election_alarm = 0;
    }

    /// Makes server `si` a follower, with its timer set anew.
    pub fn resume(&mut self, si: usize, rng: &mut RandomSource)
        requires
            si < old(self).servers@.len(),
        ensures
            final(self).sim(final(rng)) == old(self).sim(old(rng)).resumed(si as int),
    {
        broadcast use lemma_server_views_update;

        let now: u64 = self.time;
        let s = &mut self.servers[si];
        s.state = ServerState::Follower;
        s.election_alarm = make_election_alarm(now, rng);
    }

    /// Resumes every server, whatever it was.
    pub fn resume_all(&mut self, rng: &mut RandomSource)
        ensures
            final(self).sim(final(rng)) == old(self).sim(old(rng)).all_resumed(
                old(self)@.servers.len(),
            ),
    {
        let ghost w = self.sim(rng);
        assert(w.model.servers.len() == self.servers@.len());
        let n: usize = self.servers.len();
        let mut si: usize = 0;
        while si < n
            invariant
                si <= n,
                n == w.model.servers.len(),
                self.servers@.len() == n,
                self.sim(rng) == w.all_resumed(si as nat),
            decreases n - si,
        {
            self.resume(si, rng);
            si += 1;
            assert(self@ == self.sim(rng).model);
            assert(self@.servers.len() == self.servers@.len());
        }
    }

    /// Takes server `si` down and up again.
    pub fn restart(&mut self, si: usize, rng: &mut RandomSource)
        requires
            si < old(self).servers@.len(),
        ensures
            final(self).sim(final(rng)) == old(self).sim(old(rng)).restarted(si as int),
    {
        self.stop(si);
        assert(self@.servers.len() == self.servers@.len());
        self.resume(si, rng);
    }

    /// Takes a message off the network.
    pub fn drop(&mut self, msg_index: usize)
        ensures
            final(self)@ == old(self)@.message_dropped(msg_index as int),
    {
        let ghost before = message_views(self.messages@);
        if msg_index < self.messages.len() {
            self.messages.remove(msg_index);
            assert(message_views(self.messages@) =~= before.remove(msg_index as int));
        }
    }

    /// Makes server `si` stand for election at once.
    pub fn timeout(&mut self, si: usize, rng: &mut RandomSource)
        requires
            si < old(self).servers@.len(),
            old(self)@.servers[si as int].term < u64::MAX,
        ensures
            final(self).sim(final(rng)) == old(self).sim(old(rng)).timed_out(si as int),
    {
        broadcast use lemma_server_views_update;

        assert(self@.servers[si as int] == self.servers@[si as int]@);
        let s = &mut self.servers[si];
        s.state = ServerState::Follower;
        s.election_alarm = 0;
        assert(self@.servers.len() == self.servers@.len());
        self.start_new_election(si, rng);
    }

    /// Appends an entry to the log of server `si` if it leads.
    pub fn client_request(&mut self, si: usize)
        requires
            si < old(self).servers@.len(),
        ensures
            final(self)@ == old(self)@.requested(si as int),
    {
        broadcast use lemma_server_views_update;

        assert(self@.servers[si as int] == self.servers@[si as int]@);
        let s = &mut self.servers[si];
        if s.state == ServerState::Leader {
            let entry = LogEntry { term: s.term, value: "v".to_string() };
            let ghost before = entry_views(s.log@);
            s.log.push(entry);
            assert(entry_views(s.log@) =~= before.push(entry@));
        }
    }

    /// Moves the two earliest election timers apart.
    pub fn spread_timers(&mut self)
        ensures
            final(self)@ == old(self)@.timers_spread(),
    {
        broadcast use lemma_server_views_update;

        let times = self.timers();
        if times.len() < 2 {
            return ;
        }
        let (t0, t1): (u64, u64) = (times[0], times[1]);
        proof {
            lemma_timers(self@);
        }
        if t1 - t0 >= MAX_RPC_LATENCY {
            return ;
        }
        let early = t0 - self.time > MAX_RPC_LATENCY;
        let ghost m = self@;
        let ghost t = m.timers();
        let ghost f = if early {
            |a: u64|
                if a == t[0] {
                    (a - MAX_RPC_LATENCY) as u64
                } else {
                    a
                }
        } else {
            |a: u64|
                if t[0] < a < t[0] + MAX_RPC_LATENCY {
                    (a + MAX_RPC_LATENCY) as u64
                } else {
                    a
                }
        };
        let mut i: usize = 0;
        while i < self.servers.len()
            invariant
                m.time < t0 < INF,
                t0 == t[0],
                early == (t0 - m.time > MAX_RPC_LATENCY),
                f == if early {
                    |a: u64|
                        if a == t[0] {
                            (a - MAX_RPC_LATENCY) as u64
                        } else {
                            a
                        }
                } else {
                    |a: u64|
                        if t[0] < a < t[0] + MAX_RPC_LATENCY {
                            (a + MAX_RPC_LATENCY) as u64
                        } else {
                            a
                        }
                },
                self.time == m.time,
                self.messages@ == old(self).messages@,
                i <= self.servers@.len() == m.servers.len(),
                forall|j: int|
                    0 <= j < i ==> #[trigger] self@.servers[j] == with_alarm(
                        m.servers[j],
                        f(m.servers[j].election_alarm),
                    ),
                forall|j: int| i <= j < m.servers.len() ==> #[trigger] self@.servers[j] == m.servers[j],
            decreases self.servers.len() - i,
        {
            let ghost before = self@.servers;
            assert(self@.servers[i as int] == self.servers@[i as int]@);
            let s = &mut self.servers[i];
            if early {
                if s.election_alarm == t0 {
                    s.election_alarm = s.election_alarm - MAX_RPC_LATENCY;
                }
            } else if s.election_alarm > t0 && s.election_alarm < t0 + MAX_RPC_LATENCY {
                s.election_alarm = s.election_alarm + MAX_RPC_LATENCY;
            }
            assert(self@.servers =~= before.update(
                i as int,
                with_alarm(m.servers[i as int], f(m.servers[i as int].election_alarm)),
            ));
            i += 1;
        }
        assert(self@.servers =~= m.retimed(f).servers);
    }

    /// Makes the two earliest election timers ring together.
    pub fn align_timers(&mut self)
        ensures
            final(self)@ == old(self)@.timers_aligned(),
    {
        self.spread_timers();
        let times = self.timers();
        if times.len() < 2 {
            return ;
        }
        let (t0, t1): (u64, u64) = (times[0], times[1]);
        let ghost m = self@;
        let ghost t = m.timers();
        let ghost f = |a: u64|
            if a == t[1] {
                t[0]
            } else {
                a
            };
        let ghost messages = self.messages@;
        let mut i: usize = 0;
        while i < self.servers.len()
            invariant
                t0 == t[0],
                t1 == t[1],
                f == (|a: u64|
                    if a == t[1] {
                        t[0]
                    } else {
                        a
                    }),
                self.time == m.time,
                self.messages@ == messages,
                i <= self.servers@.len() == m.servers.len(),
                forall|j: int|
                    0 <= j < i ==> #[trigger] self@.servers[j] == with_alarm(
                        m.servers[j],
                        f(m.servers[j].election_alarm),
                    ),
                forall|j: int| i <= j < m.servers.len() ==> #[trigger] self@.servers[j] == m.servers[j],
            decreases self.servers.len() - i,
        {
            let ghost before = self@.servers;
            assert(self@.servers[i as int] == self.servers@[i as int]@);
            let s = &mut self.servers[i];
            if s.election_alarm == t1 {
                s.election_alarm = t0;
            }
            assert(self@.servers =~= before.update(
                i as int,
                with_alarm(m.servers[i as int], f(m.servers[i as int].election_alarm)),
            ));
            i += 1;
        }
        assert(self@.servers =~= m.retimed(f).servers);
    }

    /// Index of the leader with the highest term, if any.
    pub fn leader_index(&self) -> (r: Option<usize>)
        ensures
            match r {
                Some(i) => self@.leader() == Some(i as int) && self@.is_top_leader(i as int),
                None => self@.leader() is None && forall|i: int|
                    0 <= i < self@.servers.len() ==> (#[trigger] self@.servers[i]).state
                        != ServerState::Leader,
            },
    {
        let mut leader: Option<usize> = None;
        let mut i: usize = 0;
        while i < self.servers.len()
            invariant
                i <= self.servers@.len(),
                self@.servers.len() == self.servers@.len(),
                match leader {
                    Some(l) => {
                        &&& l < i
                        &&& self@.servers[l as int].state == ServerState::Leader
                        &&& forall|j: int|
                            0 <= j < i && (#[trigger] self@.servers[j]).state
                                == ServerState::Leader ==> self@.servers[j].term
                                <= self@.servers[l as int].term && (j < l ==> self@.servers[j].term
                                < self@.servers[l as int].term)
                    },
                    None => forall|j: int|
                        0 <= j < i ==> (#[trigger] self@.servers[j]).state != ServerState::Leader,
                },
            decreases self.servers.len() - i,
        {
            let s = &self.servers[i];
            assert(self@.servers[i as int] == s@);
            if s.state == ServerState::Leader {
                match leader {
                    Some(l) => {
                        assert(self@.servers[l as int] == self.servers@[l as int]@);
                        if s.term > self.servers[l].term {
                            leader = Some(i);
                        }
                    },
                    None => {
                        leader = Some(i);
                    },
                }
            }
            i += 1;
        }
        proof {
            match leader {
                Some(l) => lemma_top_leader(self@, l as int),
                None => {},
            }
        }
        leader
    }
}

/// There is only one leader of the latest term.
pub proof fn lemma_top_leader(m: ModelView, i: int)
    requires
        m.is_top_leader(i),
    ensures
        m.leader() == Some(i),
{
    let j = m.leader()->0;
    assert(m.is_top_leader(j));
    assert(m.servers[i].term <= m.servers[j].term && m.servers[j].term <= m.servers[i].term);
}

/// A new cluster: each server knows all the others.
pub fn cluster(rng: &mut RandomSource) -> (m: Model)
    ensures
        m.sim(final(rng)) == Sim::founded(old(rng)@, NUM_SERVERS as nat),
{
    let ghost r0 = rng@;
    let mut m = Model::new();
    let mut id: u32 = 1;
    assert(m.sim(rng) == Sim::founded(r0, 0));
    while id <= NUM_SERVERS
        invariant
            1 <= id <= NUM_SERVERS + 1,
            m.sim(rng) == Sim::founded(r0, (id - 1) as nat),
        decreases NUM_SERVERS + 1 - id,
    {
        let mut peers: Vec<u32> = Vec::new();
        let mut peer: u32 = 1;
        while peer <= NUM_SERVERS
            invariant
                1 <= id <= NUM_SERVERS,
                1 <= peer <= NUM_SERVERS + 1,
                peers@.len() == if peer <= id {
                    peer - 1
                } else {
                    peer - 2
                },
                forall|j: int| 0 <= j < peers@.len() ==> peers@[j] == peers_of(id)[j],
            decreases NUM_SERVERS + 1 - peer,
        {
            if peer != id {
                peers.push(peer);
            }
            peer += 1;
        }
        assert(peers@ =~= peers_of(id));
        let s = server(id, peers, rng);
        let ghost before = m@.servers;
        m.servers.push(s);
        assert(m@.servers =~= before.push(s@));
        id += 1;
    }
    m
}

impl Model {
    /// One leader with three entries of its own, one follower, and three
    /// servers that are down.
    pub fn setup_log_replication_scenario(&mut self, rng: &mut RandomSource)
        requires
            old(self)@.can_be_set_up(),
        ensures
            final(self).sim(final(rng)) == old(self).sim(old(rng)).log_replication_scenario(),
    {
        broadcast use lemma_server_views_update;

        let ghost n = self.servers@.len();
        assert(self@.servers.len() == n);
        self.restart(1, rng);
        assert(self@ == self.sim(rng).model && self@.servers.len() == self.servers@.len());
        self.restart(2, rng);
        assert(self@ == self.sim(rng).model && self@.servers.len() == self.servers@.len());
        self.restart(3, rng);
        assert(self@ == self.sim(rng).model && self@.servers.len() == self.servers@.len());
        self.restart(4, rng);
        assert(self@ == self.sim(rng).model && self@.servers.len() == self.servers@.len());
        self.timeout(0, rng);
        assert(self@ == self.sim(rng).model && self@.servers.len() == self.servers@.len());
        self.start_new_election(0, rng);
        assert(self@ == self.sim(rng).model && self@.servers.len() == self.servers@.len());
        let ghost w = self.sim(rng);
        let mut i: usize = 1;
        while i < 5
            invariant
                1 <= i <= 5,
                self.servers@.len() >= 5,
                self.sim(rng) == w.electors_set((i - 1) as nat),
            decreases 5 - i,
        {
            assert(self@ == self.sim(rng).model);
            let s = &mut self.servers[i];
            s.term = 2;
            s.voted_for = Some(1);
            i += 1;
        }
        assert(self@ == self.sim(rng).model);
        assert(self@.servers[0].log == w.server(0).log) by {
            reveal_with_fuel(Sim::electors_set, 5);
        }
        let s = &mut self.servers[0];
        s.vote_granted = make_map(&s.peers, true);
        assert(self.sim(rng) == w.electors_set(4).votes_cast());
        self.stop(2);
        assert(self@.servers.len() == self.servers@.len());
        self.stop(3);
        assert(self@.servers.len() == self.servers@.len());
        self.stop(4);
        assert(self@.servers.len() == self.servers@.len());
        self.become_leader(0);
        assert(self@.servers.len() == self.servers@.len());
        self.client_request(0);
        assert(self@.servers.len() == self.servers@.len());
        self.client_request(0);
        assert(self@.servers.len() == self.servers@.len());
        self.client_request(0);
    }
}

/// Running timers lie between now and `INF`, and the earliest comes first.
pub proof fn lemma_timers(m: ModelView)
    ensures
        forall|i: int| 0 <= i < m.timers().len() ==> m.time < #[trigger] m.timers()[i] < INF,
        forall|i: int, j: int|
            0 <= i < j < m.timers().len() ==> #[trigger] m.timers()[i] <= #[trigger] m.timers()[j],
{
    let runs = |s: ServerView| s.timer_runs(m.time);
    let all = running_timers(m.servers, m.time);
    assert(earlier() =~= |a: u64, b: u64| a <= b);
    assert(total_ordering(earlier()));
    all.lemma_sort_by_ensures(earlier());
    assert forall|i: int| 0 <= i < m.timers().len() implies m.time < #[trigger] m.timers()[i]
        < INF by {
        let x = m.timers()[i];
        assert(m.timers().contains(x));
        assert(all.contains(x));
        let j = choose|j: int| 0 <= j < all.len() && all[j] == x;
        lemma_filtered(m.servers, runs, j);
    }
    assert forall|i: int, j: int| 0 <= i < j < m.timers().len() implies #[trigger] m.timers()[i]
        <= #[trigger] m.timers()[j] by {
        assert(earlier()(m.timers()[i], m.timers()[j]));
    }
}

} // verus!
