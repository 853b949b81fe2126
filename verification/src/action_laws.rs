//! Laws of what the user does to a cluster, in terms of nothing but the fields
//! of servers and messages.

use crate::conduct_laws::{
    law_moments_are_picked, law_standing_for_election, moves_alone, set_anew, uniform,
};
use crate::protocol::{EntryView, ModelView, ServerView, Sim};
use crate::raft::{ServerState, NUM_SERVERS};
use crate::scenario_laws::{law_scenario_sets_the_stage, three_requests};
use crate::util::{RandomView, INF};
use vstd::prelude::*;

verus! {

// ----- servers -----

/// Stopping a server takes it down and clears its timer. It keeps everything
/// else, and nothing happens to anybody else.
pub proof fn law_stopping(w: Sim, si: int)
    requires
        0 <= si < w.model.servers.len(),
    ensures
        w.stopped(si).model == w.model.stopped(si),
        w.stopped(si).rng == w.rng,
        moves_alone(w, w.stopped(si), si),
        w.stopped(si).model.servers[si] == (ServerView {
            state: ServerState::Stopped,
            election_alarm: 0,
            ..w.model.servers[si]
        }),
{
    let n = w.stopped(si);
    assert(n.model.servers =~= w.model.servers.update(si, n.model.servers[si]));
}

/// `t` is `s` as a follower with its timer set anew.
pub open spec fn comes_back(s: ServerView, t: ServerView, now: u64, k: u64) -> bool {
    &&& t == (ServerView {
        state: ServerState::Follower,
        election_alarm: t.election_alarm,
        ..s
    })
    &&& set_anew(t.election_alarm, now, k)
}

/// Resuming a server makes it follow, with its timer set anew; restarting one
/// comes to the same. It keeps term, vote, log and all its records.
pub proof fn law_resuming(w: Sim, si: int)
    requires
        0 <= si < w.model.servers.len(),
    ensures
        moves_alone(w, w.resumed(si), si),
        comes_back(
            w.model.servers[si],
            w.resumed(si).model.servers[si],
            w.model.time,
            w.rng.draw(),
        ),
        w.resumed(si).rng == w.rng.next(),
        w.restarted(si) == w.resumed(si),
{
    law_moments_are_picked(w.model.time, w.rng.draw());
    let n = w.resumed(si);
    assert(n.model.servers =~= w.model.servers.update(si, n.model.servers[si]));
    assert(w.restarted(si).model.servers =~= n.model.servers);
    assert(w.restarted(si) =~= n);
}

/// What is left of the source of chance after `n` draws.
pub open spec fn drawn_times(rng: RandomView, n: nat) -> RandomView
    decreases n,
{
    if n == 0 {
        rng
    } else {
        drawn_times(rng, (n - 1) as nat).next()
    }
}

proof fn lemma_resuming_some(w: Sim, n: nat)
    requires
        n <= w.model.servers.len(),
    ensures
        ({
            let v = w.all_resumed(n);
            &&& v.model.time == w.model.time
            &&& v.model.messages == w.model.messages
            &&& v.model.servers.len() == w.model.servers.len()
            &&& v.rng == drawn_times(w.rng, n)
            &&& forall|i: int|
                #![trigger v.model.servers[i]]
                0 <= i < n ==> comes_back(
                    w.model.servers[i],
                    v.model.servers[i],
                    w.model.time,
                    drawn_times(w.rng, i as nat).draw(),
                )
            &&& forall|i: int|
                n <= i < w.model.servers.len() ==> #[trigger] v.model.servers[i]
                    == w.model.servers[i]
        }),
    decreases n,
{
    if n > 0 {
        lemma_resuming_some(w, (n - 1) as nat);
        let u = w.all_resumed((n - 1) as nat);
        law_resuming(u, n - 1);
        assert(u.model.servers[n - 1] == w.model.servers[n - 1]);
        let v = w.all_resumed(n);
        assert forall|i: int|
            #![trigger v.model.servers[i]]
            0 <= i < n implies comes_back(
            w.model.servers[i],
            v.model.servers[i],
            w.model.time,
            drawn_times(w.rng, i as nat).draw(),
        ) by {
            if i < n - 1 {
                assert(v.model.servers[i] == u.model.servers[i]);
            }
        }
    }
}

/// Resuming all servers makes every one of them follow, up or down before, each
/// with a timer of its own that is set anew. Messages stay on their way.
pub proof fn law_resuming_all(w: Sim)
    ensures
        ({
            let v = w.all_resumed(w.model.servers.len());
            &&& v.model.time == w.model.time
            &&& v.model.messages == w.model.messages
            &&& v.model.servers.len() == w.model.servers.len()
            &&& v.rng == drawn_times(w.rng, w.model.servers.len())
            &&& forall|i: int|
                #![trigger v.model.servers[i]]
                0 <= i < w.model.servers.len() ==> comes_back(
                    w.model.servers[i],
                    v.model.servers[i],
                    w.model.time,
                    drawn_times(w.rng, i as nat).draw(),
                )
        }),
{
    lemma_resuming_some(w, w.model.servers.len());
}

/// A server that is timed out stands for election at once, whatever it was
/// before: in the next term, with its own vote, a new timer and nothing known
/// of its peers.
pub proof fn law_timing_out(w: Sim, si: int)
    requires
        0 <= si < w.model.servers.len(),
        w.model.servers[si].term < u64::MAX,
    ensures
        ({
            let n = w.timed_out(si);
            let s = w.model.servers[si];
            let t = n.model.servers[si];
            &&& moves_alone(w, n, si)
            &&& n.rng == w.rng.next()
            &&& t.state == ServerState::Candidate
            &&& t.term == s.term + 1
            &&& t.voted_for == Some(s.id)
            &&& set_anew(t.election_alarm, w.model.time, w.rng.draw())
            &&& uniform(t.vote_granted, s.peers, false)
            &&& uniform(t.match_index, s.peers, 0usize)
            &&& uniform(t.next_index, s.peers, 1usize)
            &&& uniform(t.rpc_due, s.peers, 0u64)
            &&& uniform(t.heartbeat_due, s.peers, 0u64)
            &&& t.id == s.id && t.peers == s.peers
            &&& t.log == s.log && t.commit_index == s.commit_index
        }),
{
    let s = w.model.servers[si];
    let v = w.with(si, ServerView { state: ServerState::Follower, election_alarm: 0, ..s });
    law_standing_for_election(v, si);
    let n = w.timed_out(si);
    assert(n.model.servers =~= w.model.servers.update(si, n.model.servers[si]));
}

/// A client's request adds one entry of the leader's term behind its log. Of a
/// server that does not lead it asks nothing.
pub proof fn law_requesting(w: Sim, si: int)
    requires
        0 <= si < w.model.servers.len(),
    ensures
        ({
            let n = w.requested(si);
            let s = w.model.servers[si];
            let t = n.model.servers[si];
            &&& n.model == w.model.requested(si)
            &&& n.rng == w.rng
            &&& s.state != ServerState::Leader ==> n == w
            &&& s.state == ServerState::Leader ==> {
                &&& moves_alone(w, n, si)
                &&& t == (ServerView { log: t.log, ..s })
                &&& t.log == s.log.push(EntryView { term: s.term, value: "v"@ })
            }
        }),
{
    let n = w.requested(si);
    assert(n.model.servers =~= w.model.servers.update(si, n.model.servers[si]));
}

// ----- messages -----

/// Dropping a message takes that one off the network: those before it are where
/// they were, and those after it are each one place further to the front. Where
/// there is no such message nothing happens, and never anything to a server.
pub proof fn law_dropping(m: ModelView, i: int)
    ensures
        ({
            let n = m.message_dropped(i);
            &&& n.time == m.time
            &&& n.servers == m.servers
            &&& !(0 <= i < m.messages.len()) ==> n == m
            &&& 0 <= i < m.messages.len() ==> {
                &&& n.messages.len() == m.messages.len() - 1
                &&& forall|k: int| 0 <= k < i ==> #[trigger] n.messages[k] == m.messages[k]
                &&& forall|k: int|
                    i <= k < n.messages.len() ==> #[trigger] n.messages[k] == m.messages[k + 1]
            }
        }),
{
}

// ----- who leads -----

/// The leader is the first of those that lead in the latest term in which
/// anybody does; there is one as soon as any server leads.
pub proof fn law_who_leads(m: ModelView)
    ensures
        match m.leader() {
            Some(l) => {
                &&& 0 <= l < m.servers.len()
                &&& m.servers[l].state == ServerState::Leader
                &&& forall|j: int|
                    0 <= j < m.servers.len() && (#[trigger] m.servers[j]).state
                        == ServerState::Leader ==> m.servers[j].term < m.servers[l].term || (
                    m.servers[j].term == m.servers[l].term && l <= j)
            },
            None => forall|j: int|
                0 <= j < m.servers.len() ==> (#[trigger] m.servers[j]).state
                    != ServerState::Leader,
        },
{
    if m.leader() is Some {
        assert(m.is_top_leader(m.leader()->0));
    } else {
        if exists|j: int|
            0 <= j < m.servers.len() && (#[trigger] m.servers[j]).state == ServerState::Leader {
            let j = choose|j: int|
                0 <= j < m.servers.len() && (#[trigger] m.servers[j]).state
                    == ServerState::Leader;
            let l = lemma_some_leads(m, m.servers.len() as int, j);
            assert(m.is_top_leader(l));
        }
    }
}

/// Server `l` leads in the latest term among the first `n` servers, and is the
/// first to do so.
spec fn leads_among(m: ModelView, n: int, l: int) -> bool {
    &&& 0 <= l < n
    &&& m.servers[l].state == ServerState::Leader
    &&& forall|j: int|
        0 <= j < n && (#[trigger] m.servers[j]).state == ServerState::Leader ==> m.servers[j].term
            <= m.servers[l].term && (j < l ==> m.servers[j].term < m.servers[l].term)
}

/// As soon as one of the first `n` servers leads, one of them is the leader
/// among them.
proof fn lemma_some_leads(m: ModelView, n: int, j: int) -> (l: int)
    requires
        0 <= j < n <= m.servers.len(),
        m.servers[j].state == ServerState::Leader,
    ensures
        leads_among(m, n, l),
    decreases n,
{
    let last = m.servers[n - 1];
    if exists|i: int| 0 <= i < n - 1 && (#[trigger] m.servers[i]).state == ServerState::Leader {
        let i = choose|i: int|
            0 <= i < n - 1 && (#[trigger] m.servers[i]).state == ServerState::Leader;
        let l = lemma_some_leads(m, n - 1, i);
        if last.state == ServerState::Leader && last.term > m.servers[l].term {
            n - 1
        } else {
            l
        }
    } else {
        n - 1
    }
}

// ----- beginnings -----

/// `s` is server `id` of a new cluster: it knows everybody else, in order, and
/// follows in the first term with nothing in its log and a timer that has just
/// been set.
pub open spec fn newcomer(s: ServerView, id: int, k: u64) -> bool {
    &&& s.id == id
    &&& s.peers.len() == NUM_SERVERS - 1
    &&& forall|j: int|
        0 <= j < s.peers.len() ==> #[trigger] s.peers[j] == if j + 1 < id {
            j + 1
        } else {
            j + 2
        }
    &&& s.state == ServerState::Follower
    &&& s.term == 1
    &&& s.voted_for is None
    &&& s.log.len() == 0
    &&& s.commit_index == 0
    &&& set_anew(s.election_alarm, 0, k)
    &&& uniform(s.vote_granted, s.peers, false)
    &&& uniform(s.match_index, s.peers, 0usize)
    &&& uniform(s.next_index, s.peers, 1usize)
    &&& uniform(s.rpc_due, s.peers, 0u64)
    &&& uniform(s.heartbeat_due, s.peers, 0u64)
}

/// A server that is set up follows in the first term, with nothing in its log and
/// nothing known of the peers that it is given.
pub proof fn law_setting_up_a_server(id: u32, peers: Seq<u32>, alarm: u64)
    ensures
        ({
            let s = ServerView::fresh(id, peers, alarm);
            &&& s.id == id && s.peers == peers && s.election_alarm == alarm
            &&& s.state == ServerState::Follower && s.term == 1 && s.voted_for is None
            &&& s.log.len() == 0 && s.commit_index == 0
            &&& uniform(s.vote_granted, peers, false)
            &&& uniform(s.match_index, peers, 0usize)
            &&& uniform(s.next_index, peers, 1usize)
            &&& uniform(s.rpc_due, peers, 0u64)
            &&& uniform(s.heartbeat_due, peers, 0u64)
        }),
{
}

proof fn lemma_founding(rng: RandomView, n: nat)
    requires
        n <= NUM_SERVERS,
    ensures
        ({
            let w = Sim::founded(rng, n);
            &&& w.model.time == 0
            &&& w.model.messages.len() == 0
            &&& w.model.servers.len() == n
            &&& w.rng == drawn_times(rng, n)
            &&& forall|i: int|
                0 <= i < n ==> newcomer(
                    #[trigger] w.model.servers[i],
                    i + 1,
                    drawn_times(rng, i as nat).draw(),
                )
        }),
    decreases n,
{
    if n > 0 {
        lemma_founding(rng, (n - 1) as nat);
        let u = Sim::founded(rng, (n - 1) as nat);
        law_moments_are_picked(0, u.rng.draw());
        let w = Sim::founded(rng, n);
        assert forall|i: int| 0 <= i < n implies newcomer(
            #[trigger] w.model.servers[i],
            i + 1,
            drawn_times(rng, i as nat).draw(),
        ) by {
            if i < n - 1 {
                assert(w.model.servers[i] == u.model.servers[i]);
            }
        }
    }
}

/// A new cluster has five servers, called 1 to 5, all newcomers; its clock
/// stands at 0, and nothing is on the network.
pub proof fn law_founding(rng: RandomView)
    ensures
        ({
            let w = Sim::founded(rng, NUM_SERVERS as nat);
            &&& w.model.time == 0
            &&& w.model.messages.len() == 0
            &&& w.model.servers.len() == 5
            &&& w.rng == drawn_times(rng, 5)
            &&& forall|i: int|
                0 <= i < 5 ==> newcomer(
                    #[trigger] w.model.servers[i],
                    i + 1,
                    drawn_times(rng, i as nat).draw(),
                )
        }),
{
    lemma_founding(rng, NUM_SERVERS as nat);
}

// ----- the log-replication scenario -----

/// The log-replication scenario leaves server 0 of the list leading in its next
/// term, with everybody's vote and three new entries that nobody else has;
/// server 1 follows, and servers 2 to 4 are down, all three in term 2 with
/// their votes given to server 1.
pub proof fn law_setting_the_scene(w: Sim)
    requires
        w.model.servers.len() >= 5,
        w.model.time < u64::MAX,
        w.model.servers[0].term < u64::MAX,
        w.model.servers[0].log.len() < usize::MAX,
        2 * (w.model.servers[0].peers.to_set().len() + 1) > NUM_SERVERS,
    ensures
        ({
            let n = w.log_replication_scenario();
            let s = w.model.servers[0];
            let l = n.model.servers[0];
            let e = EntryView { term: (s.term + 1) as u64, value: "v"@ };
            &&& n.model.time == w.model.time
            &&& n.model.messages == w.model.messages
            &&& n.model.servers.len() == w.model.servers.len()
            &&& n.rng == drawn_times(w.rng, 5)
            &&& l.state == ServerState::Leader
            &&& l.term == s.term + 1
            &&& l.voted_for == Some(s.id)
            &&& l.log == s.log.push(e).push(e).push(e)
            &&& l.commit_index == s.commit_index
            &&& l.election_alarm == INF
            &&& l.id == s.id && l.peers == s.peers
            &&& uniform(l.vote_granted, s.peers, true)
            &&& uniform(l.match_index, s.peers, 0usize)
            &&& uniform(l.next_index, s.peers, (s.log.len() + 1) as usize)
            &&& uniform(l.rpc_due, s.peers, INF)
            &&& uniform(l.heartbeat_due, s.peers, 0u64)
            &&& set_anew(n.model.servers[1].election_alarm, w.model.time, w.rng.draw())
            &&& forall|i: int|
                1 <= i < 5 ==> #[trigger] n.model.servers[i] == (ServerView {
                    term: 2,
                    voted_for: Some(1),
                    state: if i == 1 {
                        ServerState::Follower
                    } else {
                        ServerState::Stopped
                    },
                    election_alarm: if i == 1 {
                        n.model.servers[1].election_alarm
                    } else {
                        0
                    },
                    ..w.model.servers[i]
                })
            &&& forall|i: int|
                5 <= i < w.model.servers.len() ==> #[trigger] n.model.servers[i]
                    == w.model.servers[i]
        }),
{
    law_scenario_sets_the_stage(w);
    reveal_with_fuel(Sim::electors_set, 5);
    reveal_with_fuel(drawn_times, 6);
    let n = w.log_replication_scenario();
    let s = w.model.servers[0];
    let e = EntryView { term: (s.term + 1) as u64, value: "v"@ };
    law_moments_are_picked(w.model.time, w.rng.draw());
    assert(s.log + three_requests(e.term) =~= s.log.push(e).push(e).push(e));
    let w2 = w.restarted(1).restarted(2).restarted(3).restarted(4).timed_out(0);
    assert(w2.server(0).election_alarm > w.model.time);
    assert(w2.start_new_election(0) == w2);
}

} // verus!
