//! The rules that each server applies at every tick.

use crate::peer_map::{entry_of, make_map};
use crate::protocol::ServerView;
use crate::raft::{
    copy_entries, lemma_server_views_update, log_term, make_election_alarm,
    message_views, portion, Body, Message, Model, ServerState, BATCH_SIZE, ELECTION_TIMEOUT,
    MAX_RPC_LATENCY, MIN_RPC_LATENCY, NUM_SERVERS, RPC_TIMEOUT,
};
use crate::util::{random, RandomSource, INF};
use vstd::prelude::*;

verus! {

impl ServerView {
    /// The server keeps all that it needs to ask `peer` for its vote.
    pub open spec fn can_ask(self, peer: u32) -> bool {
        self.state == ServerState::Candidate ==> self.rpc_due.contains_key(peer)
    }

    /// The server keeps all that it needs to tell whether to write to `peer`
    /// and, if so, to do it; what it holds of the peer's log fits its own.
    pub open spec fn can_write(self, peer: u32, now: u64) -> bool {
        self.state == ServerState::Leader ==> {
            &&& self.heartbeat_due.contains_key(peer)
            &&& self.heartbeat_due[peer] > now ==> {
                &&& self.next_index.contains_key(peer)
                &&& self.next_index[peer] <= self.log.len() ==> self.rpc_due.contains_key(peer)
            }
            &&& self.writes(peer, now) ==> {
                &&& self.next_index.contains_key(peer)
                &&& self.match_index.contains_key(peer)
                &&& 1 <= self.next_index[peer] <= self.log.len() + 1
                &&& self.match_index[peer] < usize::MAX
            }
        }
    }
}

impl Model {
    /// Puts a message on its way.
    pub fn send_message(&mut self, from: u32, to: u32, term: u64, body: Body, rng: &mut RandomSource)
        ensures
            final(self).sim(final(rng)) == old(self).sim(old(rng)).sent(from, to, term, body@),
            final(self).servers == old(self).servers,
    {
        let k: u64 = random(rng);
        let message = Message {
            from,
            to,
            term,
            send_time: self.time,
            recv_time: self.time.saturating_add(
                MIN_RPC_LATENCY + portion(k, MAX_RPC_LATENCY - MIN_RPC_LATENCY),
            ),
            body,
        };
        let ghost before = message_views(self.messages@);
        self.messages.push(message);
        assert(message_views(self.messages@) =~= before.push(message@));
    }

    /// Makes server `si` follow in `term`.
    pub fn step_down(&mut self, si: usize, term: u64, rng: &mut RandomSource)
        requires
            si < old(self).servers@.len(),
        ensures
            final(self).sim(final(rng)) == old(self).sim(old(rng)).step_down(si as int, term),
    {
        broadcast use lemma_server_views_update;

        let now: u64 = self.time;
        let s = &mut self.servers[si];
        s.term = term;
        s.state = ServerState::Follower;
        s.voted_for = None;
        if s.election_alarm <= now || s.election_alarm == INF {
            s.election_alarm = make_election_alarm(now, rng);
        }
    }

    /// A follower or candidate whose timer has run out stands for election.
    pub fn start_new_election(&mut self, si: usize, rng: &mut RandomSource)
        requires
            si < old(self).servers@.len(),
            old(self)@.servers[si as int].times_out(old(self).time) ==> old(
                self,
            )@.servers[si as int].term < u64::MAX,
        ensures
            final(self).sim(final(rng)) == old(self).sim(old(rng)).start_new_election(si as int),
    {
        broadcast use lemma_server_views_update;

        let now: u64 = self.time;
        assert(self@.servers[si as int] == self.servers@[si as int]@);
        let s = &mut self.servers[si];
        if (s.state == ServerState::Follower || s.state == ServerState::Candidate)
            && s.election_alarm <= now {
            s.election_alarm = make_election_alarm(now, rng);
            s.term += 1;
            s.voted_for = Some(s.id);
            s.state = ServerState::Candidate;
            s.vote_granted = make_map(&s.peers, false);
            s.match_index = make_map(&s.peers, 0usize);
            s.next_index = make_map(&s.peers, 1usize);
            s.rpc_due = make_map(&s.peers, 0u64);
            s.heartbeat_due = make_map(&s.peers, 0u64);
        }
    }

    /// A candidate asks a peer for its vote, and asks again if no answer comes.
    pub fn send_request_vote(&mut self, si: usize, peer: u32, rng: &mut RandomSource)
        requires
            si < old(self).servers@.len(),
            old(self)@.servers[si as int].can_ask(peer),
        ensures
            final(self).sim(final(rng)) == old(self).sim(old(rng)).send_request_vote(
                si as int,
                peer,
            ),
    {
        broadcast use lemma_server_views_update;

        let now: u64 = self.time;
        assert(self@.servers[si as int] == self.servers@[si as int]@);
        let s = &mut self.servers[si];
        if s.state == ServerState::Candidate && entry_of(&s.rpc_due, peer) <= now {
            s.rpc_due.insert(peer, now.saturating_add(RPC_TIMEOUT));
            let from: u32 = s.id;
            let term: u64 = s.term;
            let last_log_term: u64 = log_term(&s.log, s.log.len());
            let last_log_index: usize = s.log.len();
            self.send_message(
                from,
                peer,
                term,
                Body::RequestVoteReq { last_log_term, last_log_index },
                rng,
            );
        }
    }

    /// A candidate with a majority of votes leads.
    pub fn become_leader(&mut self, si: usize)
        requires
            si < old(self).servers@.len(),
            old(self)@.servers[si as int].log.len() < usize::MAX,
        ensures
            final(self)@ == old(self)@.become_leader(si as int),
    {
        broadcast use lemma_server_views_update;

        assert(self@.servers[si as int] == self.servers@[si as int]@);
        let s = &mut self.servers[si];
        let votes: usize = s.votes();
        if s.state == ServerState::Candidate && votes >= (NUM_SERVERS / 2) as usize {
            s.state = ServerState::Leader;
            s.next_index = make_map(&s.peers, s.log.len() + 1);
            s.rpc_due = make_map(&s.peers, INF);
            s.heartbeat_due = make_map(&s.peers, 0u64);
            s.election_alarm = INF;
        }
    }

    /// A leader writes to a peer: news if there are any, else a heartbeat.
    pub fn send_append_entries(&mut self, si: usize, peer: u32, rng: &mut RandomSource)
        requires
            si < old(self).servers@.len(),
            old(self)@.servers[si as int].can_write(peer, old(self).time),
        ensures
            final(self).sim(final(rng)) == old(self).sim(old(rng)).send_append_entries(
                si as int,
                peer,
            ),
    {
        broadcast use lemma_server_views_update;

        let now: u64 = self.time;
        assert(self@.servers[si as int] == self.servers@[si as int]@);
        let s = &mut self.servers[si];
        if s.state == ServerState::Leader && (entry_of(&s.heartbeat_due, peer) <= now || (entry_of(
            &s.next_index,
            peer,
        ) <= s.log.len() && entry_of(&s.rpc_due, peer) <= now)) {
            let next: usize = entry_of(&s.next_index, peer);
            let len: usize = s.log.len();
            assert(s@.log.len() == len);
            let prev_index: usize = next - 1;
            let last_index: usize = if entry_of(&s.match_index, peer) + 1 < next {
                prev_index
            } else if prev_index < len && prev_index + BATCH_SIZE < len {
                prev_index + BATCH_SIZE
            } else {
                len
            };
            let prev_term: u64 = log_term(&s.log, prev_index);
            let entries = copy_entries(&s.log, prev_index, last_index);
            let commit_index: usize = if s.commit_index < last_index {
                s.commit_index
            } else {
                last_index
            };
            let from: u32 = s.id;
            let term: u64 = s.term;
            s.rpc_due.insert(peer, now.saturating_add(RPC_TIMEOUT));
            s.heartbeat_due.insert(peer, now.saturating_add(ELECTION_TIMEOUT / 2));
            self.send_message(
                from,
                peer,
                term,
                Body::AppendEntriesReq { prev_index, prev_term, entries, commit_index },
                rng,
            );
        }
    }

    /// A leader commits what a majority holds, up to an entry of its own term.
    pub fn advance_commit_index(&mut self, si: usize)
        requires
            si < old(self).servers@.len(),
            old(self)@.servers[si as int].match_index.dom().len() >= NUM_SERVERS / 2,
        ensures
            final(self)@ == old(self)@.advance_commit_index(si as int),
    {
        broadcast use lemma_server_views_update;

        assert(self@.servers[si as int] == self.servers@[si as int]@);
        let s = &mut self.servers[si];
        let n: usize = s.agreed();
        if s.state == ServerState::Leader && log_term(&s.log, n) == s.term && s.commit_index < n {
            s.commit_index = n;
        }
    }
}

} // verus!
