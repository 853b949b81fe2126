//! Laws of readiness: what exactly is needed for a tick to be taken, in terms of
//! the fields of servers and messages.

use crate::protocol::{BodyView, MessageView, ModelView, ServerView, Sim};
use crate::raft::{ServerState, NUM_SERVERS};
use crate::tick::lemma_ready_can_update;
use crate::timeline::StateView;
use crate::util::{RandomView, INF};
use crate::validity::{lemma_first_called, lemma_for_all_peers};
use vstd::prelude::*;

verus! {

/// The server keeps records of enough peers to tell what is agreed upon.
pub open spec fn enough_records(s: ServerView) -> bool {
    s.match_index.dom().finite() && 2 * (s.match_index.dom().len() + 1) > NUM_SERVERS
}

/// Leader `s` has what it needs to look after `p` at `now`.
pub open spec fn can_look_after(s: ServerView, p: u32, now: u64) -> bool {
    let writes = s.heartbeat_due[p] <= now || (s.next_index[p] <= s.log.len() && s.rpc_due[p]
        <= now);
    &&& s.heartbeat_due.contains_key(p)
    &&& s.heartbeat_due[p] > now ==> s.next_index.contains_key(p)
    &&& s.heartbeat_due[p] > now && s.next_index[p] <= s.log.len() ==> s.rpc_due.contains_key(p)
    &&& writes ==> {
        &&& s.next_index.contains_key(p) && s.match_index.contains_key(p)
        &&& 1 <= s.next_index[p] <= s.log.len() + 1
        &&& s.match_index[p] < usize::MAX
    }
}

/// What a server needs to apply its rules depends on what it is about to do. One
/// that stands for election needs a next term and enough peers; a candidate
/// that goes on asking needs to know when to ask; one that takes office, and a
/// leader, need their records of each peer's log. Followers and servers that are
/// down need next to nothing.
pub proof fn law_what_the_rules_need(s: ServerView, now: u64)
    ensures
        ({
            let waits = s.state == ServerState::Follower || s.state == ServerState::Candidate;
            let votes = Set::new(
                |p: u32| s.vote_granted.contains_key(p) && s.vote_granted[p],
            );
            let elected = 2 * (votes.len() + 1) > NUM_SERVERS;
            if waits && s.election_alarm <= now {
                s.able(now) <==> s.log.len() < usize::MAX && s.term < u64::MAX && 2 * (
                s.peers.to_set().len() + 1) > NUM_SERVERS
            } else {
                s.able(now) <==> s.log.len() < usize::MAX && enough_records(s) && match s.state {
                    ServerState::Leader => forall|p: u32| #[trigger]
                        s.peers.contains(p) ==> can_look_after(s, p, now),
                    ServerState::Candidate => forall|p: u32| #[trigger]
                        s.peers.contains(p) ==> if elected {
                            s.match_index.contains_key(p) && s.match_index[p] < usize::MAX
                        } else {
                            s.rpc_due.contains_key(p)
                        },
                    _ => true,
                }
            }
        }),
{
    let votes = Set::new(|p: u32| s.vote_granted.contains_key(p) && s.vote_granted[p]);
    assert(s.granters() =~= votes);
    let c = s.standing(0);
    assert(c.granters() =~= Set::empty());
    lemma_for_all_peers(s.peers, 0usize);
    let waits = s.state == ServerState::Follower || s.state == ServerState::Candidate;
    let p = s.prepared(now);
    if waits && s.election_alarm <= now {
        assert(p == c);
        assert forall|q: u32| #[trigger] p.peers.contains(q) implies p.can_ask(q) && p.can_write(
            q,
            now,
        ) by {}
    } else if s.wins() {
        assert(p == s.leading());
        assert forall|q: u32| #[trigger]
            s.peers.contains(q) && s.log.len() < usize::MAX implies (p.can_ask(q) && p.can_write(
            q,
            now,
        ) <==> s.match_index.contains_key(q) && s.match_index[q] < usize::MAX) by {}
        assert(forall|q: u32| s.peers.contains(q) == #[trigger] p.peers.contains(q));
        if p.attentive(now) && s.log.len() < usize::MAX {
            assert forall|q: u32| #[trigger] s.peers.contains(q) implies s.match_index.contains_key(
                q,
            ) && s.match_index[q] < usize::MAX by {
                assert(p.peers.contains(q));
            }
        }
    } else {
        assert(p == s);
        if s.state == ServerState::Leader {
            assert forall|q: u32| #[trigger] s.peers.contains(q) implies (s.can_ask(q)
                && s.can_write(q, now) <==> can_look_after(s, q, now)) by {}
        }
    }
}

/// Any server that is up can handle any message, but for one that would lead
/// beyond the machine's reach, and for an answer about a log of which a leader
/// of that term has no record.
pub proof fn law_what_messages_need(s: ServerView, msg: MessageView)
    ensures
        s.can_handle(msg) <==> s.state == ServerState::Stopped || match msg.body {
            BodyView::AppendEntriesReq { prev_index, prev_term, entries, .. } => {
                ||| s.term > msg.term
                ||| prev_index > s.log.len()
                ||| prev_index > 0 && s.log[prev_index - 1].term != prev_term
                ||| prev_index + entries.len() < usize::MAX
            },
            BodyView::AppendEntriesRep { success, match_index } => {
                ||| s.state != ServerState::Leader
                ||| s.term != msg.term
                ||| success && s.match_index.contains_key(msg.from) && match_index < usize::MAX
                ||| !success && s.next_index.contains_key(msg.from)
            },
            _ => true,
        },
{
}

/// A tick can be taken exactly when every server can apply its rules and then
/// every message that is due, in its turn, can be handled by whom it is for.
pub proof fn law_what_a_tick_needs(w: Sim, msgs: Seq<MessageView>, msg: MessageView)
    ensures
        ({
            let v = w.all_rules_applied(w.model.servers.len());
            w.can_update() <==> (forall|i: int|
                0 <= i < w.model.servers.len() ==> (#[trigger] w.model.servers[i]).able(
                    w.model.time,
                )) && Sim {
                model: ModelView {
                    messages: v.model.messages.filter(
                        |m: MessageView| v.model.time < m.recv_time && m.recv_time < INF,
                    ),
                    ..v.model
                },
                rng: v.rng,
            }.can_deliver_all(
                v.model.messages.filter(|m: MessageView| m.recv_time <= v.model.time),
            )
        }),
        w.can_deliver_all(Seq::empty()),
        w.can_deliver_all(msgs.push(msg)) <==> w.can_deliver_all(msgs) && ({
            let v = w.all_delivered(msgs).model;
            let i = v.position(msg.to);
            i < v.servers.len() ==> v.servers[i].can_handle(msg)
        }),
{
    assert(msgs.push(msg).drop_last() =~= msgs);
    let v = w.all_rules_applied(w.model.servers.len());
    assert((|m: MessageView| v.model.time < m.recv_time && m.recv_time < INF) =~= (
    |m: MessageView| v.model.time < m.recv_time < INF));
}

/// A cluster can always take a tick in which every server knows enough peers,
/// keeps records of them all that fit its own log, and has a next term if it
/// needs one, and in which answers come from peers and no index is beyond the
/// machine's reach.
pub proof fn law_orderly_clusters_can_go_on(w: Sim)
    requires
        forall|i: int|
            #![trigger w.model.servers[i]]
            0 <= i < w.model.servers.len() ==> {
                let s = w.model.servers[i];
                &&& 2 * (s.peers.to_set().len() + 1) > NUM_SERVERS
                &&& s.vote_granted.dom().finite() && s.match_index.dom().finite()
                &&& s.log.len() < usize::MAX
                &&& s.election_alarm > w.model.time || s.term < u64::MAX
                &&& forall|p: u32| #[trigger]
                    s.peers.contains(p) ==> {
                        &&& s.vote_granted.contains_key(p) && s.match_index.contains_key(p)
                        &&& s.next_index.contains_key(p) && s.rpc_due.contains_key(p)
                        &&& s.heartbeat_due.contains_key(p)
                        &&& s.match_index[p] < usize::MAX
                        &&& 1 <= s.next_index[p] <= s.log.len() + 1
                    }
            },
        forall|k: int|
            #![trigger w.model.messages[k]]
            0 <= k < w.model.messages.len() ==> match w.model.messages[k].body {
                BodyView::AppendEntriesReq { prev_index, entries, .. } => prev_index
                    + entries.len() < usize::MAX,
                BodyView::AppendEntriesRep { success, match_index } => {
                    &&& match_index < usize::MAX
                    &&& forall|i: int|
                        0 <= i < w.model.servers.len() && (#[trigger] w.model.servers[i]).id
                            == w.model.messages[k].to ==> w.model.servers[i].peers.contains(
                            w.model.messages[k].from,
                        )
                },
                _ => true,
            },
    ensures
        w.can_update(),
{
    let m = w.model;
    assert forall|i: int| 0 <= i < m.servers.len() implies (#[trigger] m.servers[i]).wf()
        && m.servers[i].can_stand(m.time) by {}
    assert forall|k: int| 0 <= k < m.messages.len() implies m.manageable(
        #[trigger] m.messages[k],
    ) by {
        lemma_first_called(m.servers, m.messages[k].to);
    }
    lemma_ready_can_update(w);
}

/// A time can be gone to exactly when there is a history and the time was
/// reached before or a tick can be taken at it.
pub proof fn law_what_times_can_be_reached(s: StateView, time: u64, rng: RandomView)
    ensures
        s.reaches(time, rng) <==> s.checkpoints.len() > 0 && (time <= s.max_time || (Sim {
            model: ModelView { time, ..s.current },
            rng,
        }).can_update()),
{
}

/// The scenario can be set up in any cluster of five or more servers, as long as
/// there are terms and room left for the first, which takes two terms at the end
/// of the clock.
pub proof fn law_what_the_scenario_needs(m: ModelView)
    ensures
        m.can_be_set_up() <==> m.servers.len() >= 5 && m.servers[0].log.len() < usize::MAX
            && m.servers[0].term + (if m.time < u64::MAX {
            1int
        } else {
            2
        }) <= u64::MAX,
{
}

/// A server knows all its peers when it has an entry for each of them in each of
/// its records.
pub proof fn law_what_a_server_keeps(s: ServerView)
    ensures
        s.keyed() <==> forall|p: u32| #[trigger]
            s.peers.contains(p) ==> {
                &&& s.vote_granted.contains_key(p) && s.match_index.contains_key(p)
                &&& s.next_index.contains_key(p) && s.rpc_due.contains_key(p)
                &&& s.heartbeat_due.contains_key(p)
            },
{
}

} // verus!
