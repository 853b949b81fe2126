//! Asking whether something can be done before doing it.

use crate::peer_map::entry_of;
use crate::protocol::Sim;
use crate::raft::{log_term, message_views, Body, Message, Model, Server, ServerState, NUM_SERVERS};
use crate::state::State;
use crate::tick::{lemma_can_deliver, lemma_stands_prepared};
use crate::util::RandomSource;
use crate::validity::lemma_first_called;
use vstd::prelude::*;

verus! {

impl Server {
    /// Whether the server keeps an entry for each of its peers.
    pub fn is_keyed(&self) -> (b: bool)
        ensures
            b == self@.keyed(),
    {
        let mut i: usize = 0;
        while i < self.peers.len()
            invariant
                i <= self.peers@.len(),
                forall|j: int|
                    #![trigger self.peers@[j]]
                    0 <= j < i ==> {
                        &&& self@.vote_granted.contains_key(self.peers@[j])
                        &&& self@.match_index.contains_key(self.peers@[j])
                        &&& self@.next_index.contains_key(self.peers@[j])
                        &&& self@.rpc_due.contains_key(self.peers@[j])
                        &&& self@.heartbeat_due.contains_key(self.peers@[j])
                    },
            decreases self.peers.len() - i,
        {
            let p: u32 = self.peers[i];
            if !(self.vote_granted.contains_key(&p) && self.match_index.contains_key(&p)
                && self.next_index.contains_key(&p) && self.rpc_due.contains_key(&p)
                && self.heartbeat_due.contains_key(&p)) {
                assert(self@.peers.contains(p));
                return false;
            }
            i += 1;
        }
        true
    }

    /// Whether the server keeps what it needs to ask `peer` for its vote.
    fn can_ask(&self, peer: u32) -> (b: bool)
        ensures
            b == self@.can_ask(peer),
    {
        self.state != ServerState::Candidate || self.rpc_due.contains_key(&peer)
    }

    /// Whether the server keeps what it needs to write to `peer`.
    fn can_write(&self, peer: u32, now: u64) -> (b: bool)
        ensures
            b == self@.can_write(peer, now),
    {
        let len: usize = self.log.len();
        assert(self@.log.len() == len);
        if self.state != ServerState::Leader {
            return true;
        }
        if !self.heartbeat_due.contains_key(&peer) {
            return false;
        }
        if entry_of(&self.heartbeat_due, peer) > now {
            if !self.next_index.contains_key(&peer) {
                return false;
            }
            if entry_of(&self.next_index, peer) > len {
                return true;
            }
            if !self.rpc_due.contains_key(&peer) {
                return false;
            }
            if entry_of(&self.rpc_due, peer) > now {
                return true;
            }
        }
        if !(self.next_index.contains_key(&peer) && self.match_index.contains_key(&peer)) {
            return false;
        }
        let next: usize = entry_of(&self.next_index, peer);
        next >= 1 && next - 1 <= len && entry_of(&self.match_index, peer) < usize::MAX
    }

    /// Whether the server can look after its peers.
    fn is_attentive(&self, now: u64) -> (b: bool)
        ensures
            b == self@.attentive(now),
    {
        let mut i: usize = 0;
        while i < self.peers.len()
            invariant
                i <= self.peers@.len(),
                forall|j: int|
                    #![trigger self.peers@[j]]
                    0 <= j < i ==> self@.can_ask(self.peers@[j]) && self@.can_write(
                        self.peers@[j],
                        now,
                    ),
            decreases self.peers.len() - i,
        {
            let p: u32 = self.peers[i];
            if !(self.can_ask(p) && self.can_write(p, now)) {
                assert(self@.peers.contains(p));
                return false;
            }
            i += 1;
        }
        true
    }

    /// Whether the server can apply every rule: it tries the first ones out,
    /// on its own.
    pub fn is_able(&self, now: u64) -> (b: bool)
        ensures
            b == self@.able(now),
    {
        assert(self@.log.len() == self.log@.len());
        if (self.state == ServerState::Follower || self.state == ServerState::Candidate)
            && self.election_alarm <= now && self.term == u64::MAX {
            return false;
        }
        if self.log.len() == usize::MAX {
            return false;
        }
        let mut servers: Vec<Server> = Vec::new();
        servers.push(self.clone());
        let mut m = Model { time: now, servers, messages: Vec::new() };
        let mut rng = RandomSource::new();
        let ghost w = m.sim(&rng);
        proof {
            assert(m@ == w.model);
            assert(w.server(0) == m.servers@[0]@);
            lemma_stands_prepared(w, 0);
        }
        m.start_new_election(0, &mut rng);
        assert(m@ == m.sim(&rng).model);
        assert(m@.servers.len() == m.servers@.len());
        m.become_leader(0);
        assert(m@.servers.len() == m.servers@.len());
        let s = &m.servers[0];
        proof {
            assert(m@.servers[0] == s@);
            let p = self@.prepared(now);
            if p.attentive(now) {
                assert forall|q: u32| #[trigger] s@.peers.contains(q) implies s@.can_ask(q)
                    && s@.can_write(q, now) by {
                    assert(p.peers.contains(q));
                }
            }
            if s@.attentive(now) {
                assert forall|q: u32| #[trigger] p.peers.contains(q) implies p.can_ask(q)
                    && p.can_write(q, now) by {
                    assert(s@.peers.contains(q));
                }
            }
        }
        s.match_index.len() >= (NUM_SERVERS / 2) as usize && s.is_attentive(now)
    }

    /// Whether the server can handle `msg`.
    pub fn can_handle(&self, msg: &Message) -> (b: bool)
        ensures
            b == self@.can_handle(msg@),
    {
        if self.state == ServerState::Stopped {
            return true;
        }
        assert(self@.log.len() == self.log@.len());
        match &msg.body {
            Body::AppendEntriesReq { prev_index, prev_term, entries, .. } => {
                assert(msg@.body->entries.len() == entries@.len());
                self.term > msg.term || !(*prev_index == 0 || (*prev_index <= self.log.len()
                    && log_term(&self.log, *prev_index) == *prev_term)) || *prev_index < usize::MAX
                    - entries.len()
            },
            Body::AppendEntriesRep { success, match_index } => {
                self.state != ServerState::Leader || self.term != msg.term || if *success {
                    self.match_index.contains_key(&msg.from) && *match_index < usize::MAX
                } else {
                    self.next_index.contains_key(&msg.from)
                }
            },
            _ => true,
        }
    }
}

impl Model {
    /// Whether a tick can be taken with what chance brings from `rng`: it is
    /// tried out on a copy.
    pub fn can_update(&self, rng: &RandomSource) -> (b: bool)
        ensures
            b == self.sim(rng).can_update(),
    {
        let mut i: usize = 0;
        while i < self.servers.len()
            invariant
                i <= self.servers@.len(),
                forall|j: int| 0 <= j < i ==> (#[trigger] self@.servers[j]).able(self.time),
            decreases self.servers.len() - i,
        {
            assert(self@.servers[i as int] == self.servers@[i as int]@);
            if !self.servers[i].is_able(self.time) {
                assert(!self.sim(rng).model.servers[i as int].able(self.time));
                return false;
            }
            i += 1;
        }
        let mut m = self.clone();
        let mut chance = rng.clone();
        assert(m.sim(&chance) == self.sim(rng));
        assert(self@.servers.len() == self.servers@.len());
        m.apply_all_rules(&mut chance);
        let ghost w1 = m.sim(&chance);
        assert(m@ == w1.model);
        let arrived = m.collect();
        let ghost w2 = m.sim(&chance);
        let ghost msgs = message_views(arrived@);
        assert(w2 =~= Sim { model: w1.model.collected(), ..w1 });
        assert(msgs.take(0) =~= Seq::empty());
        assert(self.sim(rng).can_update() == w2.can_deliver_all(msgs));
        let mut k: usize = 0;
        while k < arrived.len()
            invariant
                k <= arrived@.len(),
                msgs == message_views(arrived@),
                self.sim(rng).can_update() == w2.can_deliver_all(msgs),
                w2.can_deliver_all(msgs.take(k as int)),
                m.sim(&chance) == w2.all_delivered(msgs.take(k as int)),
            decreases arrived.len() - k,
        {
            let msg = &arrived[k];
            let ghost w = m.sim(&chance);
            proof {
                assert(msg@ == msgs[k as int]);
                assert(m@ == w.model);
                assert(m@.servers.len() == m.servers@.len());
                lemma_first_called(m@.servers, msg.to);
                assert(msgs.take(k + 1).drop_last() =~= msgs.take(k as int));
            }
            match m.index_of(msg.to) {
                Some(to) => {
                    assert(m@.servers[to as int] == m.servers@[to as int]@);
                    if !m.servers[to].can_handle(msg) {
                        proof {
                            assert(!w.can_deliver(msg@));
                            if w2.can_deliver_all(msgs) {
                                lemma_can_deliver(w2, msgs, k as int);
                            }
                        }
                        return false;
                    }
                    m.handle_message(to, msg, &mut chance);
                },
                None => {},
            }
            k += 1;
        }
        assert(msgs.take(k as int) =~= msgs);
        true
    }

    /// Whether the log-replication scenario can be set up.
    pub fn scenario_fits(&self) -> (b: bool)
        ensures
            b == self@.can_be_set_up(),
    {
        if self.servers.len() < NUM_SERVERS as usize {
            return false;
        }
        let s = &self.servers[0];
        assert(self@.servers[0] == s@);
        assert(s@.log.len() == s.log@.len());
        s.term < u64::MAX && (self.time < u64::MAX || s.term < u64::MAX - 1) && s.log.len()
            < usize::MAX
    }
}

impl State {
    /// Whether it is possible to go to `time` with what chance brings from
    /// `rng`.
    pub fn can_reach(&self, time: u64, rng: &RandomSource) -> (b: bool)
        ensures
            b == self@.reaches(time, rng@),
    {
        assert(self@.checkpoints.len() == self.checkpoints@.len());
        if self.checkpoints.len() == 0 {
            return false;
        }
        if time <= self.max_time {
            return true;
        }
        let mut m = self.current.clone();
        m.time = time;
        assert(m@ =~= self@.current.at_time(time));
        m.can_update(rng)
    }
}

} // verus!
