//! What a server does with a message that reaches it.

use crate::peer_map::entry_of;
use crate::protocol::{merged, BodyView, MessageView, ServerView};
use crate::raft::{
    entry_views, lemma_server_views_update, log_term, make_election_alarm, Body, LogEntry, Message,
    Model, ServerState,
};
use crate::util::{RandomSource, INF};
use vstd::prelude::*;

verus! {

impl ServerView {
    /// The server keeps what it needs to take note of a follower's answer.
    pub open spec fn can_note(self, msg: MessageView) -> bool {
        self.state == ServerState::Leader && self.term == msg.term ==> match msg.body {
            BodyView::AppendEntriesRep { success, match_index } => {
                if success {
                    self.match_index.contains_key(msg.from) && match_index < usize::MAX
                } else {
                    self.next_index.contains_key(msg.from)
                }
            },
            _ => true,
        }
    }
}

impl ServerView {
    /// The indexes that the server would have to count up to are within the
    /// machine's reach.
    pub open spec fn can_take(self, msg: MessageView) -> bool {
        match msg.body {
            BodyView::AppendEntriesReq { prev_index, prev_term, entries, .. } => self.term
                <= msg.term && self.accepts(prev_index, prev_term) ==> prev_index + entries.len()
                < usize::MAX,
            _ => true,
        }
    }

    /// The server can handle `msg`.
    pub open spec fn can_handle(self, msg: MessageView) -> bool {
        self.state != ServerState::Stopped ==> self.can_take(msg) && self.can_note(msg)
    }
}

impl MessageView {
    /// The indexes that the message speaks of are within the machine's reach.
    pub open spec fn fits(self) -> bool {
        match self.body {
            BodyView::AppendEntriesReq { prev_index, entries, .. } => prev_index + entries.len()
                < usize::MAX,
            _ => true,
        }
    }
}

/// Places `entries`, one by one, behind `prev_index` of `log`.
pub fn merge(log: &mut Vec<LogEntry>, prev_index: usize, entries: &Vec<LogEntry>) -> (index: usize)
    requires
        prev_index + entries@.len() < usize::MAX,
    ensures
        index == prev_index + entries@.len(),
        entry_views(final(log)@) == merged(
            entry_views(old(log)@),
            prev_index as int,
            entry_views(entries@),
        ),
{
    let ghost all = entry_views(entries@);
    let ghost before = entry_views(log@);
    let mut i: usize = 0;
    assert(all.take(0) =~= Seq::empty());
    while i < entries.len()
        invariant
            all == entry_views(entries@),
            i <= entries@.len(),
            prev_index + entries@.len() < usize::MAX,
            entry_views(log@) == merged(before, prev_index as int, all.take(i as int)),
        decreases entries.len() - i,
    {
        let ghost so_far = entry_views(log@);
        let e = &entries[i];
        assert(e@ == all[i as int]);
        assert(all.take(i + 1).drop_last() =~= all.take(i as int));
        i += 1;
        let index: usize = prev_index + i;
        if log_term(log, index) != e.term {
            if log.len() > index - 1 {
                log.truncate(index - 1);
                assert(entry_views(log@) =~= so_far.take(index - 1));
            }
            let ghost cut = entry_views(log@);
            let copy = e.clone();
            log.push(copy);
            assert(entry_views(log@) =~= cut.push(copy@));
        }
    }
    assert(all.take(all.len() as int) =~= all);
    prev_index + i
}

impl Model {
    /// Makes server `si` follow in `term` if that is a later one than its own.
    fn catch_up(&mut self, si: usize, term: u64, rng: &mut RandomSource)
        requires
            si < old(self).servers@.len(),
        ensures
            final(self).sim(final(rng)) == old(self).sim(old(rng)).catch_up(si as int, term),
            final(self).servers@.len() == old(self).servers@.len(),
    {
        assert(self@.servers[si as int] == self.servers@[si as int]@);
        if self.servers[si].term < term {
            self.step_down(si, term, rng);
            assert(self.sim(rng).model == self@);
            assert(self@.servers.len() == self.servers@.len());
        }
    }

    /// Server `si` is asked for its vote.
    pub fn handle_request_vote_request(&mut self, si: usize, msg: &Message, rng: &mut RandomSource)
        requires
            si < old(self).servers@.len(),
            msg.body is RequestVoteReq,
        ensures
            final(self).sim(final(rng)) == old(self).sim(old(rng)).handle_request_vote_request(
                si as int,
                msg@,
            ),
    {
        broadcast use lemma_server_views_update;

        self.catch_up(si, msg.term, rng);
        let now: u64 = self.time;
        assert(self@.servers[si as int] == self.servers@[si as int]@);
        let s = &mut self.servers[si];
        let mut granted: bool = false;
        match msg.body {
            Body::RequestVoteReq { last_log_term, last_log_index } => {
                let my_last_term: u64 = log_term(&s.log, s.log.len());
                let free = match s.voted_for {
                    None => true,
                    Some(id) => id == msg.from,
                };
                if s.term == msg.term && free && (last_log_term > my_last_term || (last_log_term
                    == my_last_term && last_log_index >= s.log.len())) {
                    granted = true;
                    s.voted_for = Some(msg.from);
                    s.election_alarm = make_election_alarm(now, rng);
                }
            },
            _ => {},
        }
        let term: u64 = s.term;
        self.send_message(msg.to, msg.from, term, Body::RequestVoteRep { granted }, rng);
    }

    /// Server `si` learns of a vote.
    pub fn handle_request_vote_reply(&mut self, si: usize, msg: &Message, rng: &mut RandomSource)
        requires
            si < old(self).servers@.len(),
            msg.body is RequestVoteRep,
        ensures
            final(self).sim(final(rng)) == old(self).sim(old(rng)).handle_request_vote_reply(
                si as int,
                msg@,
            ),
    {
        broadcast use lemma_server_views_update;

        self.catch_up(si, msg.term, rng);
        assert(self@.servers[si as int] == self.servers@[si as int]@);
        let s = &mut self.servers[si];
        match msg.body {
            Body::RequestVoteRep { granted } => {
                if s.state == ServerState::Candidate && s.term == msg.term {
                    s.rpc_due.insert(msg.from, INF);
                    s.vote_granted.insert(msg.from, granted);
                }
            },
            _ => {},
        }
    }

    /// Server `si` is asked to take up entries.
    pub fn handle_append_entries_request(&mut self, si: usize, msg: &Message, rng: &mut RandomSource)
        requires
            si < old(self).servers@.len(),
            msg.body is AppendEntriesReq,
            old(self)@.servers[si as int].can_take(msg@),
        ensures
            final(self).sim(final(rng)) == old(self).sim(old(rng)).handle_append_entries_request(
                si as int,
                msg@,
            ),
    {
        broadcast use lemma_server_views_update;

        self.catch_up(si, msg.term, rng);
        let now: u64 = self.time;
        assert(self@.servers[si as int] == self.servers@[si as int]@);
        let s = &mut self.servers[si];
        let mut success: bool = false;
        let mut match_index: usize = 0;
        match &msg.body {
            Body::AppendEntriesReq { prev_index, prev_term, entries, commit_index } => {
                if s.term == msg.term {
                    s.state = ServerState::Follower;
                    s.election_alarm = make_election_alarm(now, rng);
                    if *prev_index == 0 || (*prev_index <= s.log.len() && log_term(
                        &s.log,
                        *prev_index,
                    ) == *prev_term) {
                        success = true;
                        match_index = merge(&mut s.log, *prev_index, entries);
                        if s.commit_index < *commit_index {
                            s.commit_index = *commit_index;
                        }
                    }
                }
            },
            _ => {},
        }
        let term: u64 = s.term;
        self.send_message(
            msg.to,
            msg.from,
            term,
            Body::AppendEntriesRep { success, match_index },
            rng,
        );
    }

    /// Server `si` learns what a follower has taken up.
    pub fn handle_append_entries_reply(&mut self, si: usize, msg: &Message, rng: &mut RandomSource)
        requires
            si < old(self).servers@.len(),
            msg.body is AppendEntriesRep,
            old(self)@.servers[si as int].can_note(msg@),
        ensures
            final(self).sim(final(rng)) == old(self).sim(old(rng)).handle_append_entries_reply(
                si as int,
                msg@,
            ),
    {
        broadcast use lemma_server_views_update;

        self.catch_up(si, msg.term, rng);
        assert(self@.servers[si as int] == self.servers@[si as int]@);
        let s = &mut self.servers[si];
        match msg.body {
            Body::AppendEntriesRep { success, match_index } => {
                if s.state == ServerState::Leader && s.term == msg.term {
                    if success {
                        if entry_of(&s.match_index, msg.from) < match_index {
                            s.match_index.insert(msg.from, match_index);
                        }
                        s.next_index.insert(msg.from, match_index + 1);
                    } else {
                        let next: usize = entry_of(&s.next_index, msg.from);
                        if next > 1 {
                            s.next_index.insert(msg.from, next - 1);
                        } else {
                            s.next_index.insert(msg.from, 1);
                        }
                    }
                    s.rpc_due.insert(msg.from, 0);
                }
            },
            _ => {},
        }
    }

    /// Hands a message to server `si`; a server that is down ignores it.
    pub fn handle_message(&mut self, si: usize, msg: &Message, rng: &mut RandomSource)
        requires
            si < old(self).servers@.len(),
            old(self)@.servers[si as int].can_handle(msg@),
        ensures
            final(self).sim(final(rng)) == old(self).sim(old(rng)).handle_message(si as int, msg@),
    {
        assert(self@.servers[si as int] == self.servers@[si as int]@);
        if self.servers[si].state == ServerState::Stopped {
            return ;
        }
        match msg.body {
            Body::RequestVoteReq { .. } => self.handle_request_vote_request(si, msg, rng),
            Body::RequestVoteRep { .. } => self.handle_request_vote_reply(si, msg, rng),
            Body::AppendEntriesReq { .. } => self.handle_append_entries_request(si, msg, rng),
            Body::AppendEntriesRep { .. } => self.handle_append_entries_reply(si, msg, rng),
        }
    }
}

} // verus!
