//! Laws of the log-replication scenario.

use crate::annals::{agree, Annals};
use crate::consensus_laws::{
    law_request_keeps_consistent, law_restart_keeps_consistent, law_stop_keeps_consistent,
    law_timeout_keeps_consistent,
};
use crate::consistency::{lemma_no_news, lemma_recorded_become_leader, lemma_recorded_move};
use crate::protocol::{for_all_peers, EntryView, MessageView, ModelView, ServerView, Sim};
use crate::raft::{ServerState, NUM_SERVERS};
use crate::safety::{lemma_quiet_move, Ballots};
use crate::validity::{lemma_for_all_peers, lemma_wf_standing};
use vstd::prelude::*;

verus! {

/// A server as the scenario leaves it: the others vote for server 1 in term 2.
pub open spec fn elector(s: ServerView, t: ServerView) -> bool {
    t == ServerView {
        term: 2,
        voted_for: Some(1),
        state: t.state,
        election_alarm: t.election_alarm,
        ..s
    }
}

/// The entries that the scenario gives its leader.
pub open spec fn three_requests(term: u64) -> Seq<EntryView> {
    let e = EntryView { term, value: "v"@ };
    seq![e, e, e]
}

/// The scenario leaves one leader with three new entries of its own term, one
/// follower, and three servers that are down; it sends nothing and leaves the
/// clock and any further server alone.
pub proof fn law_scenario_sets_the_stage(w: Sim)
    requires
        w.model.can_be_set_up(),
        w.model.time < u64::MAX,
        w.server(0).peers.to_set().len() >= NUM_SERVERS / 2,
    ensures
        ({
            let m = w.log_replication_scenario().model;
            let s = w.server(0);
            let l = m.servers[0];
            &&& m.time == w.model.time
            &&& m.messages == w.model.messages
            &&& m.servers.len() == w.model.servers.len()
            &&& l == (ServerView {
                voted_for: Some(s.id),
                vote_granted: for_all_peers(s.peers, true),
                log: s.log + three_requests((s.term + 1) as u64),
                ..s.standing(0).leading()
            })
            &&& elector(w.server(1), m.servers[1]) && m.servers[1].state == ServerState::Follower
            &&& forall|i: int|
                2 <= i < 5 ==> elector(w.server(i), #[trigger] m.servers[i]) && m.servers[i].state
                    == ServerState::Stopped
            &&& forall|i: int|
                5 <= i < w.model.servers.len() ==> #[trigger] m.servers[i] == w.server(i)
        }),
{
    reveal_with_fuel(Sim::electors_set, 5);
    let s = w.server(0);
    let w1 = w.restarted(1).restarted(2).restarted(3).restarted(4);
    let w2 = w1.timed_out(0);
    assert(w1.server(0) == s);
    assert(w2.server(0).term == s.term + 1);
    assert(w2.server(0).election_alarm > w.model.time);
    let w3 = w2.start_new_election(0);
    assert(w3 == w2);
    let w4 = w3.electors_set(4).votes_cast();
    let w5 = w4.stopped(2).stopped(3).stopped(4);
    let c = w5.server(0);
    lemma_for_all_peers(s.peers, true);
    assert(c.granters() =~= s.peers.to_set());
    assert(c.wins());
    let w6 = w5.become_leader(0);
    let m = w.log_replication_scenario().model;
    assert(m.servers[0].log =~= s.log + three_requests((s.term + 1) as u64));
    assert(m.servers[0] =~= ServerView {
        voted_for: Some(s.id),
        vote_granted: for_all_peers(s.peers, true),
        log: s.log + three_requests((s.term + 1) as u64),
        ..s.standing(0).leading()
    });
}

/// The scenario keeps a cluster lawful in which no election has been held yet.
pub proof fn law_scenario_keeps_lawful(w: Sim)
    requires
        w.model.lawful(),
        w.model.servers.len() == NUM_SERVERS,
        w.server(0).id == 1,
        forall|i: int| 0 <= i < NUM_SERVERS ==> (#[trigger] w.model.servers[i]).term == 1,
        w.model.time < u64::MAX,
        w.server(0).log.len() + 3 < usize::MAX,
    ensures
        w.log_replication_scenario().model.lawful(),
{
    let m = w.model;
    let n = w.log_replication_scenario().model;
    let b = choose|b: Ballots| #[trigger] m.regular(b, Seq::empty());
    let b1 = b.union_prefer_right(
        Map::new(
            |k: (u32, u64)|
                k.1 == 2 && exists|i: int| 0 <= i < m.servers.len() && (#[trigger] m.servers[i]).id == k.0,
            |k: (u32, u64)| 1u32,
        ),
    );
    assert(forall|i: int| 0 <= i < m.servers.len() ==> (#[trigger] m.servers[i]).sound(b));
    law_scenario_sets_the_stage(w);
    assert forall|i: int| 0 <= i < n.servers.len() implies (#[trigger] n.servers[i]).sound(b1)
        && n.servers[i].id == m.servers[i].id && n.servers[i].peers == m.servers[i].peers
        && n.servers[i].term == 2 by {
        let s = m.servers[i];
        let t = n.servers[i];
        assert(b1.contains_key((s.id, 2u64)) && b1[(s.id, 2u64)] == 1);
        assert forall|u: u64| u > 2 implies !#[trigger] b1.contains_key((s.id, u)) by {
            assert(!b.contains_key((s.id, u)));
        }
        if i == 0 {
            lemma_wf_standing(s, 0);
            lemma_for_all_peers(s.peers, true);
            assert(t.granters() =~= s.peers.to_set());
            assert forall|p: u32| #[trigger] t.granters().contains(p) implies b1.contains_key((p, 2u64))
                && b1[(p, 2u64)] == 1 by {
                assert(m.servers[0].peers.contains(p));
            }
        }
    }
    assert forall|k: int| 0 <= k < n.messages.len() implies n.proper(
        b1,
        #[trigger] n.messages[k],
    ) by {
        let msg = m.messages[k];
        assert(m.proper(b, msg));
        assert forall|i: int|
            #![trigger n.servers[i]]
            0 <= i < n.servers.len() implies {
            &&& n.servers[i].id == msg.from ==> n.servers[i].sent(msg)
            &&& n.servers[i].id == msg.to ==> n.servers[i].expects(msg)
        } by {
            assert(m.servers[i].id == n.servers[i].id);
        }
    }
    assert(n.acquainted()) by {
        assert forall|i: int, p: u32|
            #![trigger n.servers[i].peers.contains(p)]
            0 <= i < n.servers.len() && n.servers[i].peers.contains(p) implies exists|j: int|
            0 <= j < n.servers.len() && (#[trigger] n.servers[j]).id == p by {
            assert(m.servers[i].peers.contains(p));
            let j = choose|j: int| 0 <= j < m.servers.len() && (#[trigger] m.servers[j]).id == p;
            assert(n.servers[j].id == p);
        }
    }
    assert(n.regular(b1, Seq::empty()));
}

// ----- consistency -----

impl ModelView {
    /// No election has been held yet, and nobody has written anything.
    pub open spec fn is_unled(self) -> bool {
        &&& self.time < u64::MAX
        &&& self.servers.len() == NUM_SERVERS
        &&& self.servers[0].id == 1
        &&& forall|i: int|
            0 <= i < self.servers.len() ==> (#[trigger] self.servers[i]).term == 1
                && self.servers[i].log.len() == 0
    }
}

/// A follower of the first term votes for server 1 in the second.
proof fn lemma_elector(m: ModelView, i: int)
    requires
        m.consistent(),
        0 <= i < m.servers.len(),
        m.servers[i].term == 1,
        m.servers[i].log.len() == 0,
        m.servers[i].state == ServerState::Follower,
        m.servers.len() > 0,
        m.servers[0].state == ServerState::Candidate,
        m.servers[0].id == 1,
        m.servers[0].term == 2,
    ensures
        m.with(i, ServerView { term: 2, voted_for: Some(1), ..m.servers[i] }).consistent(),
{
    let h = choose|h: Annals| #[trigger] m.recorded(h, Seq::empty());
    let s = m.servers[i];
    let t = ServerView { term: 2, voted_for: Some(1), ..s };
    assert(h.show(s) && h.show(m.servers[0]));
    assert(s.sound(h.ballots));
    let b = h.ballots.insert((s.id, 2u64), 1u32);
    if h.ballots.contains_key((s.id, 2u64)) {
        assert(h.vote_right(s.id, 2));
    }
    assert(t.sound(b));
    lemma_quiet_move(m, h.ballots, b, Seq::empty(), i, t);
    let n1 = h.moved_on(s.id, 2);
    h.lemma_moved_on(s.id, 2);
    h.lemma_grown_traced(n1, s.id, s.log);
    assert(n1.remembers(s.log, s.id, 3, 2)) by {
        assert forall|u: u64, k: int|
            #![trigger n1.own(u, k)]
            n1.own(u, k) && u < 3 && k <= n1.ack(s.id, u) implies agree(s.log, n1.lore[u], k)
            || n1.overruled(u, k, 2) by {
            assert(h.acked.contains_key((s.id, u)));
            assert(h.ack_right(s.id, u));
            assert(h.own(u, k));
            h.lemma_grown_overruled(n1, s.id, u, k, 1);
            n1.lemma_overruled_later(u, k, 1, 2);
        }
    }
    let n = n1.vote(s.id, 2, 1, s.log);
    n1.lemma_vote(s.id, 2, 1, s.log);
    assert(h.grows(n, s.id)) by {
        if h.shown.contains_key((s.id, 2u64)) {
            assert(h.ballots.contains_key((s.id, 2u64)));
        }
        assert forall|x: u32, u: u64|
            #![trigger n.ack(x, u)]
            #![trigger h.ack(x, u)]
            n.ack(x, u) == h.ack(x, u) by {}
    }
    assert(n.show(t)) by {
        n1.lemma_grown_traced(n, s.id, s.log);
        n1.lemma_grown_remembers(n, s.id, s.log, s.id, 3, 2);
    }
    let m1 = m.with(i, t);
    assert(m1.messages =~= m.messages + Seq::<MessageView>::empty());
    lemma_recorded_move(m, h, Seq::empty(), i, t, Seq::empty(), n, m1);
    assert(m1.recorded(n, Seq::empty()));
}

/// The first server counts the votes of all the others, who have voted for it.
proof fn lemma_votes_cast(w: Sim)
    requires
        w.model.consistent(),
        w.model.servers.len() == NUM_SERVERS,
        w.server(0).id == 1,
        w.server(0).term == 2,
        w.server(0).state == ServerState::Candidate,
        forall|i: int|
            1 <= i < NUM_SERVERS ==> (#[trigger] w.model.servers[i]).term == 2
                && w.model.servers[i].voted_for == Some(1u32),
    ensures
        w.votes_cast().model.consistent(),
{
    let m = w.model;
    let h = choose|h: Annals| #[trigger] m.recorded(h, Seq::empty());
    let s = m.servers[0];
    let t = w.votes_cast().server(0);
    assert(h.show(s));
    assert(s.sound(h.ballots));
    lemma_for_all_peers(s.peers, true);
    assert(t.granters() =~= s.peers.to_set());
    assert forall|p: u32| #[trigger] t.granters().contains(p) implies {
        &&& t.peers.contains(p)
        &&& h.ballots.contains_key((p, t.term))
        &&& h.ballots[(p, t.term)] == t.id
    } by {
        assert(m.servers[0].peers.contains(p));
        let j = choose|j: int| 0 <= j < m.servers.len() && (#[trigger] m.servers[j]).id == p;
        assert(m.servers[j].sound(h.ballots));
    }
    assert(t.sound(h.ballots));
    lemma_quiet_move(m, h.ballots, h.ballots, Seq::empty(), 0, t);
    lemma_no_news(h, s.id);
    assert(h.show(t));
    let m1 = m.with(0, t);
    assert(m1.messages =~= m.messages + Seq::<MessageView>::empty());
    lemma_recorded_move(m, h, Seq::empty(), 0, t, Seq::empty(), h, m1);
    assert(m1.recorded(h, Seq::empty()));
}

/// A candidate that wins keeps a cluster consistent.
proof fn lemma_crowned(m: ModelView, si: int)
    requires
        m.consistent(),
        0 <= si < m.servers.len(),
    ensures
        m.become_leader(si).consistent(),
{
    let h = choose|h: Annals| #[trigger] m.recorded(h, Seq::empty());
    let n = lemma_recorded_become_leader(m, si, h, Seq::empty());
    assert(m.become_leader(si).recorded(n, Seq::empty()));
}

/// The first `n` servers after the first have voted.
proof fn lemma_electors(w: Sim, n: nat)
    requires
        w.model.consistent(),
        w.model.servers.len() == NUM_SERVERS,
        n < NUM_SERVERS,
        w.server(0).id == 1,
        w.server(0).term == 2,
        w.server(0).state == ServerState::Candidate,
        forall|i: int|
            1 <= i < NUM_SERVERS ==> (#[trigger] w.model.servers[i]).term == 1
                && w.model.servers[i].log.len() == 0 && w.model.servers[i].state
                == ServerState::Follower,
    ensures
        w.electors_set(n).model.consistent(),
        w.electors_set(n).model.servers.len() == NUM_SERVERS,
        w.electors_set(n).server(0) == w.server(0),
        forall|i: int|
            1 <= i <= n ==> (#[trigger] w.electors_set(n).model.servers[i]) == (ServerView {
                term: 2,
                voted_for: Some(1),
                ..w.model.servers[i]
            }),
        forall|i: int|
            n < i < NUM_SERVERS ==> (#[trigger] w.electors_set(n).model.servers[i])
                == w.model.servers[i],
    decreases n,
{
    if n > 0 {
        lemma_electors(w, (n - 1) as nat);
        let v = w.electors_set((n - 1) as nat);
        assert(v.model.servers[n as int] == w.model.servers[n as int]);
        lemma_elector(v.model, n as int);
    }
}

/// The others have been restarted and the first server stands for election.
pub open spec fn candidate_up(w: Sim) -> Sim {
    w.restarted(1).restarted(2).restarted(3).restarted(4).timed_out(0)
}

proof fn lemma_candidate_up(w: Sim)
    requires
        w.model.consistent(),
        w.model.is_unled(),
    ensures
        candidate_up(w).model.consistent(),
        candidate_up(w).start_new_election(0) == candidate_up(w),
        candidate_up(w).model.servers.len() == NUM_SERVERS,
        candidate_up(w).server(0).id == 1,
        candidate_up(w).server(0).term == 2,
        candidate_up(w).server(0).state == ServerState::Candidate,
        candidate_up(w).server(0).log.len() == 0,
        forall|i: int|
            1 <= i < NUM_SERVERS ==> (#[trigger] candidate_up(w).model.servers[i]).term == 1
                && candidate_up(w).model.servers[i].log.len() == 0 && candidate_up(
                w,
            ).model.servers[i].state == ServerState::Follower,
{
    let v1 = w.restarted(1);
    let v2 = v1.restarted(2);
    let v3 = v2.restarted(3);
    let v4 = v3.restarted(4);
    law_restart_keeps_consistent(w, 1);
    law_restart_keeps_consistent(v1, 2);
    law_restart_keeps_consistent(v2, 3);
    law_restart_keeps_consistent(v3, 4);
    assert(v4.server(0) == w.server(0));
    assert(w.server(0).term == 1);
    law_timeout_keeps_consistent(v4, 0);
    let w2 = v4.timed_out(0);
    assert forall|i: int| 1 <= i < NUM_SERVERS implies (#[trigger] w2.model.servers[i]).term == 1
        && w2.model.servers[i].log.len() == 0 && w2.model.servers[i].state
        == ServerState::Follower by {
        assert(w.model.servers[i].term == 1);
    }
}

/// Three servers go down, the first one leads, and takes three requests.
proof fn lemma_reign(w: Sim)
    requires
        w.model.consistent(),
        w.model.servers.len() == NUM_SERVERS,
        w.server(0).log.len() == 0,
    ensures
        w.stopped(2).stopped(3).stopped(4).become_leader(0).requested(0).requested(0).requested(
            0,
        ).model.consistent(),
{
    law_stop_keeps_consistent(w.model, 2);
    let w1 = w.stopped(2);
    law_stop_keeps_consistent(w1.model, 3);
    let w2 = w1.stopped(3);
    law_stop_keeps_consistent(w2.model, 4);
    let w3 = w2.stopped(4);
    lemma_crowned(w3.model, 0);
    let w4 = w3.become_leader(0);
    assert(w4.server(0).log.len() == 0);
    law_request_keeps_consistent(w4.model, 0);
    let w5 = w4.requested(0);
    assert(w5.server(0).log.len() <= 1);
    law_request_keeps_consistent(w5.model, 0);
    let w6 = w5.requested(0);
    assert(w6.server(0).log.len() <= 2);
    law_request_keeps_consistent(w6.model, 0);
}

/// The scenario keeps a cluster consistent in which no election has been held
/// yet.
pub proof fn law_scenario_keeps_consistent(w: Sim)
    requires
        w.model.consistent(),
        w.model.is_unled(),
    ensures
        w.log_replication_scenario().model.consistent(),
{
    lemma_candidate_up(w);
    let w2 = candidate_up(w);
    lemma_electors(w2, 4);
    let w3 = w2.electors_set(4);
    lemma_votes_cast(w3);
    lemma_reign(w3.votes_cast());
}

} // verus!
