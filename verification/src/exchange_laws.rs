//! Laws of exchanges: what a request, its delivery, the answer and its delivery
//! come to together.

use crate::conduct_laws::{end_term, law_asking_for_votes, law_writing_to_followers, tells};
use crate::message_laws::{
    law_counting_votes, law_hearing_from_a_leader, law_noting_progress, law_voting, stand_there,
    up_to_date,
};
use crate::protocol::{BodyView, EntryView, MessageView, Sim};
use crate::raft::ServerState;
use vstd::prelude::*;

verus! {

/// The message that was sent last.
pub open spec fn newest(w: Sim) -> MessageView {
    w.model.messages[w.model.messages.len() - 1]
}

/// A candidate `ci` that asks server `fi`, which goes by the name `peer`, gets
/// its vote and counts it exactly when `fi` is not beyond its term, is free to
/// vote for it, and has no log that is more up to date. The vote is noted on
/// both sides.
pub proof fn law_a_vote_is_asked_given_and_counted(w: Sim, ci: int, fi: int, peer: u32)
    requires
        0 <= ci < w.model.servers.len(),
        0 <= fi < w.model.servers.len(),
        ci != fi,
        w.model.servers[ci].state == ServerState::Candidate,
        w.model.servers[ci].rpc_due[peer] <= w.model.time,
        w.model.servers[ci].log.len() <= usize::MAX,
        w.model.servers[fi].id == peer,
        w.model.servers[fi].state != ServerState::Stopped,
        w.model.servers[fi].term <= w.model.servers[ci].term,
    ensures
        ({
            let c = w.model.servers[ci];
            let f = w.model.servers[fi];
            let asked = w.send_request_vote(ci, peer);
            let heard = asked.handle_message(fi, newest(asked));
            let done = heard.handle_message(ci, newest(heard));
            let granted = (f.term < c.term || f.voted_for is None || f.voted_for == Some(c.id))
                && up_to_date(end_term(c.log), c.log.len() as usize, f.log);
            &&& done.model.servers[ci].vote_granted.contains_key(peer)
            &&& done.model.servers[ci].vote_granted[peer] == granted
            &&& done.model.servers[ci].state == ServerState::Candidate
            &&& done.model.servers[fi].term == c.term
            &&& granted ==> done.model.servers[fi].voted_for == Some(c.id)
            &&& f.term == c.term && !granted ==> done.model.servers[fi].voted_for == f.voted_for
        }),
{
    let c = w.model.servers[ci];
    law_asking_for_votes(w, ci, peer);
    let asked = w.send_request_vote(ci, peer);
    let msg = newest(asked);
    assert(asked.model.servers[fi] == w.model.servers[fi]);
    law_voting(asked, fi, msg, end_term(c.log), c.log.len() as usize);
    let heard = asked.handle_message(fi, msg);
    assert(heard.model.servers[ci] == asked.model.servers[ci]);
    let reply = newest(heard);
    law_counting_votes(heard, ci, reply, reply.body->granted);
}

/// A leader `li` that writes to server `fi`, which goes by the name `peer` and is
/// not beyond its term, learns how far their logs match. If they agree where the
/// entries belong, the follower holds them afterwards, the leader knows, and it
/// goes on behind them; if not, the leader will try one entry further to the
/// front.
pub proof fn law_entries_are_sent_taken_up_and_noted(w: Sim, li: int, fi: int, peer: u32)
    requires
        0 <= li < w.model.servers.len(),
        0 <= fi < w.model.servers.len(),
        li != fi,
        w.model.servers[li].state == ServerState::Leader,
        w.model.servers[li].heartbeat_due[peer] <= w.model.time,
        w.model.servers[li].match_index.contains_key(peer),
        1 <= w.model.servers[li].next_index[peer] <= w.model.servers[li].log.len() + 1,
        w.model.servers[li].log.len() < usize::MAX,
        forall|k: int|
            0 <= k < w.model.servers[li].log.len() ==> (
            #[trigger] w.model.servers[li].log[k]).term > 0,
        w.model.servers[fi].id == peer,
        w.model.servers[fi].state != ServerState::Stopped,
        w.model.servers[fi].term <= w.model.servers[li].term,
    ensures
        ({
            let l = w.model.servers[li];
            let f = w.model.servers[fi];
            let wrote = w.send_append_entries(li, peer);
            let heard = wrote.handle_message(fi, newest(wrote));
            let done = heard.handle_message(li, newest(heard));
            let prev = l.next_index[peer] - 1;
            let entries = newest(wrote).body->entries;
            let agrees = prev == 0 || (prev <= f.log.len() && f.log[prev - 1].term == l.log[prev
                - 1].term);
            let t = done.model.servers[li];
            &&& done.model.servers[fi].term == l.term
            &&& done.model.servers[fi].state == ServerState::Follower
            &&& t.state == ServerState::Leader && t.term == l.term && t.log == l.log
            &&& agrees ==> {
                &&& t.next_index[peer] == prev + entries.len() + 1
                &&& t.match_index[peer] >= prev + entries.len()
                &&& t.match_index[peer] >= l.match_index[peer]
                &&& stand_there(
                    done.model.servers[fi].log,
                    prev,
                    entries,
                    entries.len() as int,
                )
            }
            &&& !agrees ==> {
                &&& t.next_index[peer] == prev
                &&& t.match_index[peer] == l.match_index[peer]
                &&& done.model.servers[fi].log == f.log
            }
        }),
{
    let l = w.model.servers[li];
    let f = w.model.servers[fi];
    law_writing_to_followers(w, li, peer);
    let wrote = w.send_append_entries(li, peer);
    let msg = newest(wrote);
    assert(tells(l, peer, msg.body));
    let (prev_index, prev_term, entries, commit_index) = match msg.body {
        BodyView::AppendEntriesReq { prev_index, prev_term, entries, commit_index } => (
            prev_index,
            prev_term,
            entries,
            commit_index,
        ),
        _ => (0usize, 0u64, Seq::<EntryView>::empty(), 0usize),
    };
    assert forall|k: int| 0 <= k < entries.len() implies (#[trigger] entries[k]).term > 0 by {
        assert(entries[k] == l.log[prev_index + k]);
    }
    assert(wrote.model.servers[fi] == f);
    law_hearing_from_a_leader(wrote, fi, msg, prev_index, prev_term, entries, commit_index);
    let heard = wrote.handle_message(fi, msg);
    assert(heard.model.servers[li] == wrote.model.servers[li]);
    let reply = newest(heard);
    law_noting_progress(heard, li, reply, reply.body->success, reply.body->match_index);
}

} // verus!
