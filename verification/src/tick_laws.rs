//! Laws of what a tick is for: timers are heeded, those who are due are written
//! to, and what has arrived is heard and answered.

use crate::cluster_laws::{
    cluster_goes_on, goes_on, law_what_has_arrived_is_delivered, lemma_all_rules_go_on,
    lemma_deliveries_go_on, lemma_delivery_goes_on, lemma_peers_go_on, lemma_rules_go_on,
};
use crate::conduct_laws::{
    end_term, law_asking_for_votes, law_standing_for_election, law_taking_office,
    law_writing_to_followers, tells,
};
use crate::message_laws::law_terms_spread_with_messages;
use crate::protocol::{BodyView, MessageView, ModelView, ServerView, Sim};
use crate::raft::{ServerState, MAX_RPC_LATENCY, MIN_RPC_LATENCY, NUM_SERVERS};
use crate::tick::{
    lemma_filtered, lemma_prepared, lemma_untouched, lemma_untouched_peers,
};
use crate::timer_laws::lemma_passes_filter;
use crate::util::INF;
use crate::validity::lemma_first_called;
use vstd::prelude::*;

verus! {

// ----- how a tick is made up -----

/// A tick applies the rules of all servers and then delivers, of all that is on
/// the network by then, what is due by now; what never comes is lost.
pub proof fn law_rules_come_before_deliveries(w: Sim)
    ensures
        ({
            let v = w.all_rules_applied(w.model.servers.len());
            w.updated() == Sim {
                model: ModelView {
                    messages: v.model.messages.filter(
                        |m: MessageView| w.model.time < m.recv_time && m.recv_time < INF,
                    ),
                    ..v.model
                },
                rng: v.rng,
            }.all_delivered(v.model.messages.filter(|m: MessageView| m.recv_time <= w.model.time))
        }),
{
    lemma_untouched(w, w.model.servers.len());
    let v = w.all_rules_applied(w.model.servers.len());
    assert(v.model.time == w.model.time);
    assert((|m: MessageView| m.recv_time <= w.model.time) =~= (|m: MessageView|
        m.recv_time <= v.model.time));
    assert((|m: MessageView| w.model.time < m.recv_time && m.recv_time < INF) =~= (
    |m: MessageView| v.model.time < m.recv_time < INF));
}

/// The rules are applied server by server in the order of the list. Each server
/// first stands for election if it is to, then leads if it has won, then commits
/// what it can, and then looks after its peers one by one, in the order of its
/// own list.
pub proof fn law_order_of_the_rules(w: Sim, i: nat, j: nat)
    ensures
        w.all_rules_applied(0) == w,
        w.all_rules_applied(i + 1) == w.all_rules_applied(i).rules_applied(i as int),
        w.rules_applied(i as int) == w.start_new_election(i as int).become_leader(
            i as int,
        ).advance_commit_index(i as int).peers_contacted(
            i as int,
            w.model.servers[i as int].peers.len(),
        ),
        w.peers_contacted(i as int, 0) == w,
        w.peers_contacted(i as int, j + 1) == w.peers_contacted(i as int, j).send_request_vote(
            i as int,
            w.model.servers[i as int].peers[j as int],
        ).send_append_entries(i as int, w.model.servers[i as int].peers[j as int]),
{
}

/// Messages are delivered in the order in which they were sent, each to the
/// first server of the list that goes by the name it is addressed to, if there
/// is one.
pub proof fn law_order_of_the_deliveries(w: Sim, msgs: Seq<MessageView>, msg: MessageView, i: int)
    ensures
        w.all_delivered(Seq::empty()) == w,
        w.all_delivered(msgs.push(msg)) == w.all_delivered(msgs).delivered(msg),
        addressed(w.model, msg.to, i) ==> w.delivered(msg) == w.handle_message(i, msg),
        (forall|k: int|
            0 <= k < w.model.servers.len() ==> (#[trigger] w.model.servers[k]).id != msg.to)
            ==> w.delivered(msg) == w,
{
    assert(msgs.push(msg).drop_last() =~= msgs);
    lemma_first_called(w.model.servers, msg.to);
    let p = w.model.position(msg.to);
    if addressed(w.model, msg.to, i) {
        if p < i {
            assert(w.model.servers[p].id != msg.to);
        } else if p > i {
            assert(w.model.servers[i].id != msg.to);
        }
    }
}

/// Server `i` is the first that goes by the name `id`.
pub open spec fn addressed(m: ModelView, id: u32, i: int) -> bool {
    &&& 0 <= i < m.servers.len()
    &&& m.servers[i].id == id
    &&& forall|k: int| 0 <= k < i ==> (#[trigger] m.servers[k]).id != id
}

// ----- what arrives is heard and answered -----

/// `r` is an answer to the request `msg`, sent at `now` by whom it was for to
/// whom it came from.
pub open spec fn answers(r: MessageView, msg: MessageView, now: u64) -> bool {
    &&& r.from == msg.to
    &&& r.to == msg.from
    &&& r.term >= msg.term
    &&& r.send_time == now
    &&& msg.body is RequestVoteReq ==> r.body is RequestVoteRep
    &&& msg.body is AppendEntriesReq ==> r.body is AppendEntriesRep
}

/// A server that is up answers a request, and only a request, with one message.
pub proof fn law_requests_are_answered(w: Sim, i: int, msg: MessageView)
    requires
        0 <= i < w.model.servers.len(),
        w.model.servers[i].state != ServerState::Stopped,
    ensures
        ({
            let n = w.handle_message(i, msg).model;
            let asks = msg.body is RequestVoteReq || msg.body is AppendEntriesReq;
            &&& n.messages.len() == w.model.messages.len() + if asks {
                1int
            } else {
                0
            }
            &&& forall|k: int|
                0 <= k < w.model.messages.len() ==> #[trigger] n.messages[k]
                    == w.model.messages[k]
            &&& asks ==> answers(n.messages[n.messages.len() - 1], msg, w.model.time)
                && n.messages[n.messages.len() - 1].term == n.servers[i].term
        }),
{
}

proof fn lemma_heard(w: Sim, msgs: Seq<MessageView>, k: int, i: int)
    requires
        0 <= k < msgs.len(),
        addressed(w.model, msgs[k].to, i),
        w.model.servers[i].state != ServerState::Stopped,
    ensures
        w.all_delivered(msgs).model.servers[i].term >= msgs[k].term,
        msgs[k].body is RequestVoteReq || msgs[k].body is AppendEntriesReq ==> exists|j: int|
            w.model.messages.len() <= j < w.all_delivered(msgs).model.messages.len() && answers(
                #[trigger] w.all_delivered(msgs).model.messages[j],
                msgs[k],
                w.model.time,
            ),
    decreases msgs.len(),
{
    let front = msgs.drop_last();
    let v = w.all_delivered(front);
    let n = w.all_delivered(msgs);
    lemma_deliveries_go_on(w, front);
    lemma_delivery_goes_on(v, msgs.last());
    assert(goes_on(w.model.servers[i], v.model.servers[i]));
    assert(goes_on(v.model.servers[i], n.model.servers[i]));
    if k < front.len() {
        assert(front[k] == msgs[k]);
        lemma_heard(w, front, k, i);
        if msgs[k].body is RequestVoteReq || msgs[k].body is AppendEntriesReq {
            let j = choose|j: int|
                w.model.messages.len() <= j < v.model.messages.len() && answers(
                    #[trigger] v.model.messages[j],
                    msgs[k],
                    w.model.time,
                );
            assert(n.model.messages[j] == v.model.messages[j]);
        }
    } else {
        assert forall|c: int| 0 <= c < i implies (#[trigger] v.model.servers[c]).id
            != msgs[k].to by {
            assert(goes_on(w.model.servers[c], v.model.servers[c]));
        }
        law_order_of_the_deliveries(v, front, msgs[k], i);
        law_terms_spread_with_messages(v, i, msgs[k]);
        law_requests_are_answered(v, i, msgs[k]);
        let j = n.model.messages.len() - 1;
        if msgs[k].body is RequestVoteReq || msgs[k].body is AppendEntriesReq {
            assert(answers(n.model.messages[j], msgs[k], w.model.time));
        }
    }
}

/// Every message that has arrived for a server that is up is heard in the tick:
/// afterwards the server is in no earlier term than the message, and a request
/// has been answered.
pub proof fn law_what_arrives_is_heard(w: Sim, k: int, i: int)
    requires
        w.can_update(),
        0 <= k < w.model.messages.len(),
        w.model.messages[k].recv_time <= w.model.time,
        addressed(w.model, w.model.messages[k].to, i),
        w.model.servers[i].state != ServerState::Stopped,
    ensures
        w.updated().model.servers[i].term >= w.model.messages[k].term,
        w.model.messages[k].body is RequestVoteReq || w.model.messages[k].body is AppendEntriesReq
            ==> exists|j: int|
            0 <= j < w.updated().model.messages.len() && answers(
                #[trigger] w.updated().model.messages[j],
                w.model.messages[k],
                w.model.time,
            ),
{
    let n = w.model.servers.len();
    let msg = w.model.messages[k];
    lemma_all_rules_go_on(w, n);
    let v = w.all_rules_applied(n);
    let here = |m: MessageView| m.recv_time <= v.model.time;
    assert(v.model.messages[k] == msg);
    lemma_passes_filter(v.model.messages, here, k);
    let msgs = v.model.arrived();
    let q = choose|q: int| 0 <= q < msgs.len() && msgs[q] == msg;
    let v1 = Sim { model: v.model.collected(), ..v };
    assert(goes_on(w.model.servers[i], v.model.servers[i]));
    assert forall|c: int| 0 <= c < i implies (#[trigger] v1.model.servers[c]).id != msg.to by {
        assert(goes_on(w.model.servers[c], v.model.servers[c]));
    }
    lemma_heard(v1, msgs, q, i);
}

// ----- rules take effect -----

/// What comes after its own rules leaves a server alone until messages are
/// delivered, and so does what comes before them.
pub proof fn law_rules_are_its_own(w: Sim, i: int)
    requires
        0 <= i < w.model.servers.len(),
    ensures
        w.all_rules_applied(i as nat).model.servers[i] == w.model.servers[i],
        w.all_rules_applied(i as nat).model.time == w.model.time,
        w.all_rules_applied(w.model.servers.len()).model.servers[i] == w.all_rules_applied(
            i as nat,
        ).rules_applied(i).model.servers[i],
{
    lemma_untouched(w, i as nat);
    lemma_later_rules(w, i, w.model.servers.len());
}

proof fn lemma_later_rules(w: Sim, i: int, n: nat)
    requires
        0 <= i < n <= w.model.servers.len(),
    ensures
        w.all_rules_applied(n).model.servers[i] == w.all_rules_applied(
            (i + 1) as nat,
        ).model.servers[i],
    decreases n,
{
    if n > i + 1 {
        lemma_later_rules(w, i, (n - 1) as nat);
        let v = w.all_rules_applied((n - 1) as nat);
        lemma_untouched(w, (n - 1) as nat);
        let v1 = v.start_new_election(n - 1).become_leader(n - 1).advance_commit_index(n - 1);
        lemma_untouched_peers(v1, n - 1, v.server(n - 1).peers.len());
        assert(v.rules_applied(n - 1).model.servers[i] == v.model.servers[i]);
    }
}

proof fn lemma_unheard(w: Sim, msgs: Seq<MessageView>, i: int)
    requires
        0 <= i < w.model.servers.len(),
        forall|k: int|
            0 <= k < msgs.len() ==> (#[trigger] msgs[k]).to != w.model.servers[i].id,
    ensures
        w.all_delivered(msgs).model.servers[i] == w.model.servers[i],
        w.all_delivered(msgs).model.servers.len() == w.model.servers.len(),
    decreases msgs.len(),
{
    if msgs.len() > 0 {
        let front = msgs.drop_last();
        assert forall|k: int| 0 <= k < front.len() implies (#[trigger] front[k]).to
            != w.model.servers[i].id by {
            assert(front[k] == msgs[k]);
        }
        lemma_unheard(w, front, i);
        let v = w.all_delivered(front);
        let msg = msgs[msgs.len() - 1];
        lemma_first_called(v.model.servers, msg.to);
        let p = v.model.position(msg.to);
        if p < v.model.servers.len() && v.model.servers[p].state != ServerState::Stopped {
            law_terms_spread_with_messages(v, p, msg);
        }
    }
}

/// A server for which nothing has arrived is after the tick what its own rules
/// make of it.
pub proof fn law_without_news_only_rules_count(w: Sim, i: int)
    requires
        w.can_update(),
        w.model.time + MIN_RPC_LATENCY <= u64::MAX,
        0 <= i < w.model.servers.len(),
        forall|k: int|
            0 <= k < w.model.messages.len() && (#[trigger] w.model.messages[k]).recv_time
                <= w.model.time ==> w.model.messages[k].to != w.model.servers[i].id,
    ensures
        w.updated().model.servers[i] == w.all_rules_applied(i as nat).rules_applied(
            i,
        ).model.servers[i],
{
    let n = w.model.servers.len();
    law_rules_are_its_own(w, i);
    law_what_has_arrived_is_delivered(w);
    lemma_all_rules_go_on(w, n);
    let v = w.all_rules_applied(n);
    assert(goes_on(w.model.servers[i], v.model.servers[i]));
    let msgs = w.model.arrived();
    assert forall|k: int| 0 <= k < msgs.len() implies (#[trigger] msgs[k]).to
        != w.model.servers[i].id by {
        lemma_filtered(w.model.messages, |m: MessageView| m.recv_time <= w.model.time, k);
    }
    lemma_unheard(Sim { model: v.model.collected(), ..v }, msgs, i);
}

/// A follower whose timer has not run out and for which nothing has arrived
/// comes out of a tick as it went into it.
pub proof fn law_idle_follower_stays_as_it_is(w: Sim, i: int)
    requires
        w.can_update(),
        w.model.time + MIN_RPC_LATENCY <= u64::MAX,
        0 <= i < w.model.servers.len(),
        w.model.servers[i].state == ServerState::Follower,
        w.model.servers[i].election_alarm > w.model.time,
        forall|k: int|
            0 <= k < w.model.messages.len() && (#[trigger] w.model.messages[k]).recv_time
                <= w.model.time ==> w.model.messages[k].to != w.model.servers[i].id,
    ensures
        w.updated().model.servers[i] == w.model.servers[i],
{
    law_without_news_only_rules_count(w, i);
    law_rules_are_its_own(w, i);
    lemma_untouched(w, i as nat);
    let v = w.all_rules_applied(i as nat);
    let s = w.model.servers[i];
    lemma_follower_waits(v, i, s.peers.len());
    assert(v.start_new_election(i) == v);
    assert(v.become_leader(i) == v);
    assert(v.advance_commit_index(i).model.servers =~= v.model.servers);
    assert(v.advance_commit_index(i) == v);
}

proof fn lemma_follower_waits(w: Sim, i: int, n: nat)
    requires
        0 <= i < w.model.servers.len(),
        w.model.servers[i].state == ServerState::Follower,
    ensures
        w.peers_contacted(i, n) == w,
    decreases n,
{
    if n > 0 {
        lemma_follower_waits(w, i, (n - 1) as nat);
    }
}

/// A follower or candidate whose timer has run out is in a later term after the
/// tick.
pub proof fn law_timers_are_heeded(w: Sim, i: int)
    requires
        w.can_update(),
        0 <= i < w.model.servers.len(),
        w.model.servers[i].state == ServerState::Follower || w.model.servers[i].state
            == ServerState::Candidate,
        w.model.servers[i].election_alarm <= w.model.time,
    ensures
        w.updated().model.servers[i].term > w.model.servers[i].term,
        w.all_rules_applied(w.model.servers.len()).model.servers[i].term
            == w.model.servers[i].term + 1,
        w.all_rules_applied(w.model.servers.len()).model.servers[i].voted_for == Some(
            w.model.servers[i].id,
        ),
{
    let n = w.model.servers.len();
    law_rules_are_its_own(w, i);
    let v = w.all_rules_applied(i as nat);
    lemma_untouched(w, i as nat);
    assert(w.model.servers[i].able(w.model.time));
    law_standing_for_election(v, i);
    lemma_prepared(v, i);
    let v1 = v.start_new_election(i);
    law_taking_office(v1, i);
    let v3 = v1.become_leader(i).advance_commit_index(i);
    lemma_peers_keep(v3, i, w.model.servers[i].peers.len());
    let u = w.all_rules_applied(n);
    lemma_untouched(w, n);
    lemma_collecting_and_delivering(u);
    assert(goes_on(u.model.collected().servers[i], w.updated().model.servers[i]));
}

proof fn lemma_collecting_and_delivering(u: Sim)
    ensures
        cluster_goes_on(
            u.model.collected(),
            Sim { model: u.model.collected(), ..u }.all_delivered(u.model.arrived()).model,
        ),
{
    lemma_deliveries_go_on(Sim { model: u.model.collected(), ..u }, u.model.arrived());
}

/// Looking after peers changes nothing of a server but when it will do so again.
proof fn lemma_peers_keep(w: Sim, i: int, n: nat)
    requires
        0 <= i < w.model.servers.len(),
    ensures
        ({
            let s = w.model.servers[i];
            let t = w.peers_contacted(i, n).model.servers[i];
            &&& t == (ServerView { rpc_due: t.rpc_due, heartbeat_due: t.heartbeat_due, ..s })
            &&& w.peers_contacted(i, n).model.servers.len() == w.model.servers.len()
            &&& w.peers_contacted(i, n).model.time == w.model.time
        }),
    decreases n,
{
    if n > 0 {
        lemma_peers_keep(w, i, (n - 1) as nat);
    }
}

/// `msg` asks `peer`, in the name of candidate `s`, for its vote.
pub open spec fn asks_for_vote(msg: MessageView, s: ServerView, peer: u32, now: u64) -> bool {
    &&& msg.from == s.id && msg.to == peer && msg.term == s.term && msg.send_time == now
    &&& msg.body == (BodyView::RequestVoteReq {
        last_log_term: end_term(s.log),
        last_log_index: s.log.len() as usize,
    })
}

/// `msg` tells `peer` what leader `s` has for it.
pub open spec fn tells_news(msg: MessageView, s: ServerView, peer: u32, now: u64) -> bool {
    &&& msg.from == s.id && msg.to == peer && msg.term == s.term && msg.send_time == now
    &&& tells(s, peer, msg.body)
}

/// The message `peer` is owed by a candidate or leader `s` that looks after it.
pub open spec fn owed(msg: MessageView, s: ServerView, peer: u32, now: u64) -> bool {
    if s.state == ServerState::Candidate {
        asks_for_vote(msg, s, peer, now)
    } else {
        tells_news(msg, s, peer, now)
    }
}

/// Server `s` owes `peer` a message at `now`.
pub open spec fn due(s: ServerView, peer: u32, now: u64) -> bool {
    ||| s.state == ServerState::Candidate && s.rpc_due[peer] <= now
    ||| s.state == ServerState::Leader && (s.heartbeat_due[peer] <= now || (s.next_index[peer]
        <= s.log.len() && s.rpc_due[peer] <= now))
}

/// Whoever is due is written to: among the first `n` peers, at the latest.
proof fn lemma_due_are_written_to(w: Sim, i: int, n: nat, p: u32)
    requires
        0 <= i < w.model.servers.len(),
        n <= w.model.servers[i].peers.len(),
        w.model.servers[i].log.len() <= usize::MAX,
        w.model.servers[i].attentive(w.model.time),
        due(w.model.servers[i], p, w.model.time),
        w.model.servers[i].peers.contains(p),
    ensures
        ({
            let s = w.model.servers[i];
            let v = w.peers_contacted(i, n);
            let t = v.model.servers[i];
            if w.model.servers[i].peers.take(n as int).contains(p) {
                exists|k: int|
                    w.model.messages.len() <= k < v.model.messages.len() && owed(
                        #[trigger] v.model.messages[k],
                        s,
                        p,
                        w.model.time,
                    )
            } else {
                t.rpc_due[p] == s.rpc_due[p] && t.heartbeat_due[p] == s.heartbeat_due[p]
            }
        }),
    decreases n,
{
    let s = w.model.servers[i];
    let now = w.model.time;
    if n > 0 {
        let m = (n - 1) as nat;
        lemma_due_are_written_to(w, i, m, p);
        lemma_peers_keep(w, i, m);
        lemma_peers_go_on(w, i, m);
        let v = w.peers_contacted(i, m);
        let t = v.model.servers[i];
        let peer = s.peers[n - 1];
        let v1 = v.send_request_vote(i, peer);
        let v2 = v1.send_append_entries(i, peer);
        assert(s.peers.take(n as int) =~= s.peers.take(m as int).push(peer));
        assert(v.model.messages.len() <= v1.model.messages.len() <= v2.model.messages.len());
        assert forall|k: int| 0 <= k < v.model.messages.len() implies v2.model.messages[k]
            == #[trigger] v.model.messages[k] by {}
        if s.peers.take(m as int).contains(p) {
            let k = choose|k: int|
                w.model.messages.len() <= k < v.model.messages.len() && owed(
                    #[trigger] v.model.messages[k],
                    s,
                    p,
                    now,
                );
            assert(owed(v2.model.messages[k], s, p, now));
            let q = choose|q: int| 0 <= q < m && s.peers.take(m as int)[q] == p;
            assert(s.peers.take(n as int)[q] == p);
        } else if peer == p {
            assert(s.peers.take(n as int)[n - 1] == p);
            law_asking_for_votes(v, i, p);
            assert(s.peers.contains(p));
            assert(s.can_write(p, now));
            if s.state == ServerState::Candidate {
                assert(v2 == v1);
                assert(owed(v2.model.messages[v2.model.messages.len() - 1], s, p, now));
            } else {
                assert(v1 == v);
                law_writing_to_followers(v, i, p);
                let msg = v2.model.messages[v2.model.messages.len() - 1];
                assert(tells(t, p, msg.body));
                assert(owed(msg, s, p, now));
            }
        } else {
            assert(!s.peers.take(n as int).contains(p)) by {
                if s.peers.take(n as int).contains(p) {
                    let q = choose|q: int| 0 <= q < n && s.peers.take(n as int)[q] == p;
                    assert(s.peers.take(m as int)[q] == p);
                }
            }
        }
    }
}

/// What server `i` of the cluster is when it comes to look after its peers.
pub open spec fn at_its_peers(w: Sim, i: int) -> ServerView {
    w.all_rules_applied(i as nat).start_new_election(i).become_leader(i).advance_commit_index(
        i,
    ).model.servers[i]
}

/// In a tick every candidate asks every peer that is due to be asked, and every
/// leader tells every peer that is due what it has for it: the message is on
/// its way after the tick.
pub proof fn law_whoever_is_due_is_written_to(w: Sim, i: int, p: u32)
    requires
        w.can_update(),
        w.model.time + MAX_RPC_LATENCY <= INF,
        0 <= i < w.model.servers.len(),
        w.model.servers[i].peers.contains(p),
        due(at_its_peers(w, i), p, w.model.time),
    ensures
        exists|k: int|
            0 <= k < w.updated().model.messages.len() && owed(
                #[trigger] w.updated().model.messages[k],
                at_its_peers(w, i),
                p,
                w.model.time,
            ),
{
    let len = w.model.servers.len();
    let now = w.model.time;
    lemma_untouched(w, i as nat);
    let v = w.all_rules_applied(i as nat);
    assert(v.model.servers[i] == w.model.servers[i]);
    assert(w.model.servers[i].able(now));
    lemma_prepared(v, i);
    let c = v.start_new_election(i).become_leader(i).advance_commit_index(i);
    let s = at_its_peers(w, i);
    assert(s.log == w.model.servers[i].log);
    let n = w.model.servers[i].peers.len();
    assert(s.peers.take(n as int) =~= s.peers);
    lemma_due_are_written_to(c, i, n, p);
    lemma_peers_go_on(c, i, n);
    let d = c.peers_contacted(i, n);
    let k = choose|k: int|
        c.model.messages.len() <= k < d.model.messages.len() && owed(
            #[trigger] d.model.messages[k],
            s,
            p,
            now,
        );
    let msg = d.model.messages[k];
    assert(d == w.all_rules_applied((i + 1) as nat));
    lemma_messages_stay(w, (i + 1) as nat, len);
    let u = w.all_rules_applied(len);
    assert(u.model.messages[k] == msg);
    lemma_all_rules_go_on(w, len);
    let away = |m: MessageView| u.model.time < m.recv_time < INF;
    assert(now < msg.recv_time < INF);
    lemma_passes_filter(u.model.messages, away, k);
    let e = u.model.collected();
    let q = choose|q: int| 0 <= q < e.messages.len() && e.messages[q] == msg;
    lemma_collecting_and_delivering(u);
    assert(w.updated().model.messages[q] == msg);
}

proof fn lemma_messages_stay(w: Sim, m: nat, n: nat)
    requires
        w.can_update(),
        m <= n <= w.model.servers.len(),
    ensures
        ({
            let a = w.all_rules_applied(m).model.messages;
            let b = w.all_rules_applied(n).model.messages;
            &&& a.len() <= b.len()
            &&& forall|k: int| 0 <= k < a.len() ==> #[trigger] b[k] == a[k]
        }),
    decreases n,
{
    if n > m {
        lemma_messages_stay(w, m, (n - 1) as nat);
        let v = w.all_rules_applied((n - 1) as nat);
        lemma_untouched(w, (n - 1) as nat);
        assert(v.model.servers[n - 1] == w.model.servers[n - 1]);
        lemma_rules_go_on(v, n - 1);
        let a = w.all_rules_applied(m).model.messages;
        let b = w.all_rules_applied(n).model.messages;
        assert forall|k: int| 0 <= k < a.len() implies #[trigger] b[k] == a[k] by {
            assert(v.model.messages[k] == a[k]);
        }
    }
}

/// A server that is about to look after its peers leads exactly when it led
/// before or was a candidate with a majority of votes whose timer had not run
/// out.
pub proof fn law_office_is_taken_in_a_tick(w: Sim, i: int)
    requires
        w.can_update(),
        0 <= i < w.model.servers.len(),
    ensures
        ({
            let s = w.model.servers[i];
            let t = at_its_peers(w, i);
            let votes = Set::new(
                |p: u32| s.vote_granted.contains_key(p) && s.vote_granted[p],
            );
            &&& s.election_alarm > w.model.time ==> (t.state == ServerState::Leader <==> s.state
                == ServerState::Leader || (s.state == ServerState::Candidate && 2 * (votes.len()
                + 1) > NUM_SERVERS))
            &&& s.state == ServerState::Leader ==> t.state == ServerState::Leader
            &&& s.election_alarm > w.model.time ==> t.term == s.term
            &&& t.log == s.log
            &&& w.all_rules_applied(w.model.servers.len()).model.servers[i].state == t.state
        }),
{
    law_rules_are_its_own(w, i);
    lemma_untouched(w, i as nat);
    let v = w.all_rules_applied(i as nat);
    assert(w.model.servers[i].able(w.model.time));
    lemma_prepared(v, i);
    let v1 = v.start_new_election(i);
    law_taking_office(v1, i);
    let c = v1.become_leader(i).advance_commit_index(i);
    lemma_peers_keep(c, i, w.model.servers[i].peers.len());
}

} // verus!
