//! Laws of a tick: what holds of every server and message, whatever chance
//! brings.

use crate::protocol::{
    after, alarm, arrival, merged, term_at, BodyView, EntryView, MessageView, ModelView,
    ServerView, Sim,
};
use crate::quorum::lemma_agreed;
use crate::raft::{
    lemma_share, ServerState, ELECTION_TIMEOUT, MAX_RPC_LATENCY, MIN_RPC_LATENCY, NUM_SERVERS,
};
use crate::tick::{
    lemma_delivered_members, lemma_filtered, lemma_prepared, lemma_ready_can_update,
    lemma_untouched, lemma_untouched_peers,
};
use crate::util::{lemma_draw_range, RandomView, INF};
use crate::validity::{lemma_first_called, lemma_wf_replicas};
use vstd::prelude::*;

verus! {

// ----- chance -----

/// Election timers run for at least one and less than two election timeouts,
/// and messages take as long as the network allows; only the end of the clock
/// cuts them short.
pub proof fn law_delays_are_bounded(now: u64, rng: RandomView)
    ensures
        after(now, ELECTION_TIMEOUT as int) <= alarm(now, rng.draw()) <= after(
            now,
            2 * ELECTION_TIMEOUT - 1,
        ),
        after(now, MIN_RPC_LATENCY as int) <= arrival(now, rng.draw()) <= after(
            now,
            MAX_RPC_LATENCY - 1,
        ),
{
    lemma_draw_range(rng);
    lemma_share(rng.draw(), ELECTION_TIMEOUT);
    lemma_share(rng.draw(), (MAX_RPC_LATENCY - MIN_RPC_LATENCY) as u64);
}

// ----- how servers and messages go on -----

/// What a server can have become in the course of a tick: its term and its
/// commit index do not go back, its vote stands as long as its term lasts, it
/// takes up office only by election and as leader leaves its log alone, and
/// while it is stopped nothing happens to it.
pub open spec fn goes_on(s: ServerView, t: ServerView) -> bool {
    &&& t.id == s.id
    &&& t.peers == s.peers
    &&& t.term >= s.term
    &&& t.commit_index >= s.commit_index
    &&& s.state == ServerState::Stopped ==> t == s
    &&& t.state == ServerState::Stopped ==> s.state == ServerState::Stopped
    &&& t.term == s.term ==> {
        &&& s.voted_for is Some ==> t.voted_for == s.voted_for
        &&& t.state == ServerState::Candidate ==> s.state == ServerState::Candidate
        &&& t.state == ServerState::Leader ==> (s.state == ServerState::Candidate || s.state
            == ServerState::Leader)
        &&& t.state == ServerState::Leader && s.state == ServerState::Leader ==> t.log == s.log
    }
}

/// The message is sent now, and is on its way for as long as the network takes.
pub open spec fn just_sent(msg: MessageView, now: u64) -> bool {
    &&& msg.send_time == now
    &&& after(now, MIN_RPC_LATENCY as int) <= msg.recv_time <= after(now, MAX_RPC_LATENCY - 1)
}

/// A server that goes by the name `from` is up.
pub open spec fn speaks(m: ModelView, from: u32) -> bool {
    exists|i: int|
        0 <= i < m.servers.len() && (#[trigger] m.servers[i]).id == from && m.servers[i].state
            != ServerState::Stopped
}

/// What a cluster can have become in the course of a tick, but for the messages
/// that are taken off the network: its servers have gone on, and those that are
/// up have sent messages.
pub open spec fn cluster_goes_on(m: ModelView, n: ModelView) -> bool {
    &&& n.time == m.time
    &&& n.servers.len() == m.servers.len()
    &&& forall|i: int|
        #![trigger n.servers[i]]
        #![trigger m.servers[i]]
        0 <= i < m.servers.len() ==> goes_on(m.servers[i], n.servers[i])
    &&& m.messages.len() <= n.messages.len()
    &&& forall|k: int|
        0 <= k < m.messages.len() ==> #[trigger] n.messages[k] == m.messages[k]
    &&& forall|k: int|
        m.messages.len() <= k < n.messages.len() ==> just_sent(#[trigger] n.messages[k], m.time)
            && speaks(m, n.messages[k].from)
}

/// Who is up later was up before.
proof fn lemma_speaks_before(m: ModelView, n: ModelView, from: u32)
    requires
        cluster_goes_on(m, n),
        speaks(n, from),
    ensures
        speaks(m, from),
{
    let i = choose|i: int|
        0 <= i < n.servers.len() && (#[trigger] n.servers[i]).id == from && n.servers[i].state
            != ServerState::Stopped;
    assert(goes_on(m.servers[i], n.servers[i]));
}

proof fn lemma_goes_on_transitive(a: ModelView, b: ModelView, c: ModelView)
    requires
        cluster_goes_on(a, b),
        cluster_goes_on(b, c),
    ensures
        cluster_goes_on(a, c),
{
    assert forall|i: int|
        #![trigger c.servers[i]]
        #![trigger a.servers[i]]
        0 <= i < a.servers.len() implies goes_on(a.servers[i], c.servers[i]) by {
        assert(goes_on(a.servers[i], b.servers[i]));
        assert(goes_on(b.servers[i], c.servers[i]));
    }
    assert forall|k: int| 0 <= k < a.messages.len() implies #[trigger] c.messages[k]
        == a.messages[k] by {
        assert(b.messages[k] == a.messages[k]);
    }
    assert forall|k: int| a.messages.len() <= k < c.messages.len() implies just_sent(
        #[trigger] c.messages[k],
        a.time,
    ) && speaks(a, c.messages[k].from) by {
        if k < b.messages.len() {
            assert(c.messages[k] == b.messages[k]);
        } else {
            lemma_speaks_before(a, b, c.messages[k].from);
        }
    }
}

/// A server moves, and nothing else happens.
proof fn lemma_server_goes_on(m: ModelView, si: int, t: ServerView)
    requires
        0 <= si < m.servers.len(),
        goes_on(m.servers[si], t),
    ensures
        cluster_goes_on(m, m.with(si, t)),
{
}

/// A server that is up sends a message, and nothing else happens.
proof fn lemma_sending_goes_on(w: Sim, from: u32, to: u32, term: u64, body: BodyView)
    requires
        speaks(w.model, from),
    ensures
        cluster_goes_on(w.model, w.sent(from, to, term, body).model),
{
    law_delays_are_bounded(w.model.time, w.rng);
}

/// Looking after peers takes the cluster on.
pub proof fn lemma_peers_go_on(w: Sim, si: int, n: nat)
    requires
        0 <= si < w.model.servers.len(),
        n <= w.server(si).peers.len(),
    ensures
        cluster_goes_on(w.model, w.peers_contacted(si, n).model),
    decreases n,
{
    if n > 0 {
        lemma_peers_go_on(w, si, (n - 1) as nat);
        lemma_untouched_peers(w, si, (n - 1) as nat);
        let v = w.peers_contacted(si, (n - 1) as nat);
        let peer = w.server(si).peers[n - 1];
        let s = v.server(si);
        let v1 = v.send_request_vote(si, peer);
        if s.asks(peer, v.model.time) {
            let t = v1.server(si);
            lemma_server_goes_on(v.model, si, t);
            assert(v.with(si, t).model.servers[si] == t);
            lemma_sending_goes_on(v.with(si, t), s.id, peer, s.term, v1.model.messages.last().body);
            lemma_goes_on_transitive(v.model, v.with(si, t).model, v1.model);
        }
        let s1 = v1.server(si);
        let v2 = v1.send_append_entries(si, peer);
        if s1.writes(peer, v1.model.time) {
            let t = v2.server(si);
            lemma_server_goes_on(v1.model, si, t);
            assert(v1.with(si, t).model.servers[si] == t);
            lemma_sending_goes_on(v1.with(si, t), s1.id, peer, s1.term, s1.entries_for(peer));
            lemma_goes_on_transitive(v1.model, v1.with(si, t).model, v2.model);
        }
        lemma_goes_on_transitive(v.model, v1.model, v2.model);
        lemma_goes_on_transitive(w.model, v.model, v2.model);
    }
}

/// The rules of a server take the cluster on.
pub proof fn lemma_rules_go_on(w: Sim, si: int)
    requires
        0 <= si < w.model.servers.len(),
        w.server(si).able(w.model.time),
    ensures
        cluster_goes_on(w.model, w.rules_applied(si).model),
{
    lemma_prepared(w, si);
    let w1 = w.start_new_election(si);
    let w2 = w1.become_leader(si);
    let w3 = w2.advance_commit_index(si);
    lemma_agreed(w2.server(si));
    assert(cluster_goes_on(w.model, w1.model));
    assert(cluster_goes_on(w1.model, w2.model));
    assert(cluster_goes_on(w2.model, w3.model));
    lemma_goes_on_transitive(w.model, w1.model, w2.model);
    lemma_goes_on_transitive(w.model, w2.model, w3.model);
    lemma_peers_go_on(w3, si, w.server(si).peers.len());
    lemma_goes_on_transitive(w.model, w3.model, w.rules_applied(si).model);
}

/// The rules of the first `n` servers take the cluster on.
pub proof fn lemma_all_rules_go_on(w: Sim, n: nat)
    requires
        w.can_update(),
        n <= w.model.servers.len(),
    ensures
        cluster_goes_on(w.model, w.all_rules_applied(n).model),
    decreases n,
{
    if n > 0 {
        lemma_all_rules_go_on(w, (n - 1) as nat);
        lemma_untouched(w, (n - 1) as nat);
        let v = w.all_rules_applied((n - 1) as nat);
        assert(v.server(n - 1) == w.model.servers[n - 1]);
        lemma_rules_go_on(v, n - 1);
        lemma_goes_on_transitive(w.model, v.model, w.all_rules_applied(n).model);
    }
}

/// A delivery takes the cluster on.
pub proof fn lemma_delivery_goes_on(w: Sim, msg: MessageView)
    ensures
        cluster_goes_on(w.model, w.delivered(msg).model),
{
    lemma_first_called(w.model.servers, msg.to);
    let si = w.model.position(msg.to);
    if si < w.model.servers.len() && w.server(si).state != ServerState::Stopped {
        let v = w.catch_up(si, msg.term);
        assert(cluster_goes_on(w.model, v.model));
        let n = w.delivered(msg);
        let t = n.server(si);
        lemma_server_goes_on(v.model, si, t);
        assert(v.server(si).id == msg.to && v.with(si, t).server(si).id == msg.to);
        match msg.body {
            BodyView::RequestVoteReq { last_log_term, last_log_index } => {
                let granted = v.server(si).grants(
                    msg.from,
                    msg.term,
                    last_log_term,
                    last_log_index,
                );
                let u = if granted {
                    v.with(si, t).drawn()
                } else {
                    v
                };
                lemma_sending_goes_on(
                    u,
                    msg.to,
                    msg.from,
                    v.server(si).term,
                    BodyView::RequestVoteRep { granted },
                );
                lemma_goes_on_transitive(v.model, u.model, n.model);
            },
            BodyView::AppendEntriesReq { .. } => {
                let u = if v.server(si).term != msg.term {
                    v
                } else {
                    v.with(si, t).drawn()
                };
                lemma_sending_goes_on(
                    u,
                    msg.to,
                    msg.from,
                    v.server(si).term,
                    n.model.messages.last().body,
                );
                lemma_goes_on_transitive(v.model, u.model, n.model);
            },
            _ => {},
        }
        lemma_goes_on_transitive(w.model, v.model, n.model);
    }
}

/// Deliveries take the cluster on.
pub proof fn lemma_deliveries_go_on(w: Sim, msgs: Seq<MessageView>)
    ensures
        cluster_goes_on(w.model, w.all_delivered(msgs).model),
    decreases msgs.len(),
{
    if msgs.len() > 0 {
        lemma_deliveries_go_on(w, msgs.drop_last());
        let v = w.all_delivered(msgs.drop_last());
        lemma_delivery_goes_on(v, msgs.last());
        lemma_goes_on_transitive(w.model, v.model, w.all_delivered(msgs).model);
    }
}

/// In a cluster that is in order a tick can be taken, whatever chance brings.
pub proof fn law_ready_can_update(w: Sim)
    requires
        w.model.ready(),
    ensures
        w.can_update(),
{
    lemma_ready_can_update(w);
}

/// Filtering a list that has grown.
proof fn lemma_filter_grown<A>(s: Seq<A>, t: Seq<A>, pred: spec_fn(A) -> bool)
    requires
        s.len() <= t.len(),
        forall|k: int| 0 <= k < s.len() ==> #[trigger] t[k] == s[k],
    ensures
        s.filter(pred).len() <= t.filter(pred).len(),
        forall|k: int|
            0 <= k < s.filter(pred).len() ==> #[trigger] t.filter(pred)[k] == s.filter(pred)[k],
        forall|k: int|
            s.filter(pred).len() <= k < t.filter(pred).len() ==> exists|j: int|
                s.len() <= j < t.len() && #[trigger] t[j] == #[trigger] t.filter(pred)[k],
    decreases t.len(),
{
    if s.len() == t.len() {
        assert(s =~= t);
    } else {
        reveal(Seq::filter);
        let t0 = t.drop_last();
        lemma_filter_grown(s, t0, pred);
        assert forall|k: int| s.filter(pred).len() <= k < t.filter(pred).len() implies exists|
            j: int,
        |
            s.len() <= j < t.len() && #[trigger] t[j] == #[trigger] t.filter(pred)[k] by {
            if k < t0.filter(pred).len() {
                let j = choose|j: int|
                    s.len() <= j < t0.len() && #[trigger] t0[j] == t0.filter(pred)[k];
                assert(t[j] == t.filter(pred)[k]);
            } else {
                assert(t[t.len() - 1] == t.filter(pred)[k]);
            }
        }
    }
}

/// Taking messages off the network leaves the others in their order.
proof fn lemma_collecting_goes_on(m: ModelView, n: ModelView)
    requires
        cluster_goes_on(m, n),
    ensures
        cluster_goes_on(m.collected(), n.collected()),
{
    let away = |msg: MessageView| m.time < msg.recv_time < INF;
    assert(away =~= |msg: MessageView| n.time < msg.recv_time < INF);
    lemma_filter_grown(m.messages, n.messages, away);
    let (a, b) = (m.collected(), n.collected());
    assert(a.messages == m.messages.filter(away));
    assert(b.messages == n.messages.filter(away));
    assert forall|k: int| a.messages.len() <= k < b.messages.len() implies just_sent(
        #[trigger] b.messages[k],
        a.time,
    ) && speaks(a, b.messages[k].from) by {
        let j = choose|j: int|
            m.messages.len() <= j < n.messages.len() && #[trigger] n.messages[j] == b.messages[k];
        assert(speaks(m, n.messages[j].from));
        let i = choose|i: int|
            0 <= i < m.servers.len() && (#[trigger] m.servers[i]).id == n.messages[j].from
                && m.servers[i].state != ServerState::Stopped;
        assert(a.servers[i].id == b.messages[k].from);
    }
}

/// A tick takes every server on as [`goes_on`] says. The messages that are
/// still on their way stay as they are, in their order, and in front of those
/// that have just been sent by servers that are up.
pub proof fn law_tick_goes_on(w: Sim)
    requires
        w.can_update(),
    ensures
        cluster_goes_on(w.model.collected(), w.updated().model),
{
    let n = w.model.servers.len();
    lemma_all_rules_go_on(w, n);
    let v = w.all_rules_applied(n);
    let v1 = Sim { model: v.model.collected(), ..v };
    lemma_collecting_goes_on(w.model, v.model);
    lemma_deliveries_go_on(v1, v.model.arrived());
    lemma_goes_on_transitive(w.model.collected(), v1.model, w.updated().model);
}

/// A tick does not move the clock, and adds or loses no server.
pub proof fn law_tick_keeps_the_clock(w: Sim)
    ensures
        w.updated().model.time == w.model.time,
        w.updated().model.servers.len() == w.model.servers.len(),
{
    let n = w.model.servers.len();
    lemma_untouched(w, n);
    let v = w.all_rules_applied(n);
    lemma_delivered_members(Sim { model: v.model.collected(), ..v }, v.model.arrived());
}

/// What the servers send in a tick does not arrive in it: what is delivered is
/// what had arrived before.
pub proof fn law_what_has_arrived_is_delivered(w: Sim)
    requires
        w.can_update(),
        w.model.time + MIN_RPC_LATENCY <= u64::MAX,
    ensures
        ({
            let v = w.all_rules_applied(w.model.servers.len());
            &&& v.model.arrived() == w.model.arrived()
            &&& w.updated() == Sim { model: v.model.collected(), ..v }.all_delivered(
                w.model.arrived(),
            )
        }),
{
    let n = w.model.servers.len();
    lemma_all_rules_go_on(w, n);
    let v = w.all_rules_applied(n);
    let here = |msg: MessageView| msg.recv_time <= w.model.time;
    assert(here =~= |msg: MessageView| msg.recv_time <= v.model.time);
    let (a, b) = (w.model.arrived(), v.model.arrived());
    assert(a == w.model.messages.filter(here));
    assert(b == v.model.messages.filter(here));
    lemma_filter_grown(w.model.messages, v.model.messages, here);
    if a.len() < b.len() {
        let k = a.len() as int;
        lemma_filtered(v.model.messages, here, k);
        assert(here(b[k]));
        let j = choose|j: int|
            w.model.messages.len() <= j < v.model.messages.len() && #[trigger] v.model.messages[j]
                == b[k];
        assert(just_sent(v.model.messages[j], w.model.time));
    }
    assert(a =~= b);
}

/// After a tick no message is overdue: all that have arrived were delivered.
pub proof fn law_no_message_is_overdue(w: Sim, k: int)
    requires
        w.can_update(),
        w.model.time + MIN_RPC_LATENCY <= u64::MAX,
        0 <= k < w.updated().model.messages.len(),
    ensures
        w.updated().model.messages[k].recv_time > w.model.time,
{
    law_tick_goes_on(w);
    let kept = w.model.collected().messages;
    if k < kept.len() {
        lemma_filtered(w.model.messages, |m: MessageView| w.model.time < m.recv_time < INF, k);
        assert(w.updated().model.messages[k] == kept[k]);
    }
}

/// What a tick leaves on the network, while the clock is far from its end: in
/// front the messages that are still on their way, as they were, and behind
/// them those that have just been sent. All are due before [`INF`].
pub proof fn law_messages_over_a_tick(w: Sim)
    requires
        w.can_update(),
        w.model.time + MAX_RPC_LATENCY <= INF,
    ensures
        ({
            let kept = w.model.messages.filter(
                |m: MessageView| w.model.time < m.recv_time < INF,
            );
            let left = w.updated().model.messages;
            &&& kept.len() <= left.len()
            &&& left.take(kept.len() as int) == kept
            &&& forall|k: int|
                kept.len() <= k < left.len() ==> just_sent(#[trigger] left[k], w.model.time)
                    && speaks(w.model, left[k].from)
            &&& forall|k: int|
                0 <= k < left.len() ==> w.model.time < (#[trigger] left[k]).recv_time < INF
        }),
{
    law_tick_goes_on(w);
    let kept = w.model.messages.filter(|m: MessageView| w.model.time < m.recv_time < INF);
    assert(kept == w.model.collected().messages);
    let left = w.updated().model.messages;
    assert(left.take(kept.len() as int) =~= kept);
    assert forall|k: int| kept.len() <= k < left.len() implies speaks(
        w.model,
        (#[trigger] left[k]).from,
    ) by {
        lemma_speaks_collected(w.model, left[k].from);
    }
    assert forall|k: int| 0 <= k < left.len() implies w.model.time < (
    #[trigger] left[k]).recv_time < INF by {
        if k < kept.len() {
            lemma_filtered(w.model.messages, |m: MessageView| w.model.time < m.recv_time < INF, k);
            assert(left[k] == kept[k]);
        }
    }
}

/// Who is up does not depend on what is on the network.
proof fn lemma_speaks_collected(m: ModelView, from: u32)
    requires
        speaks(m.collected(), from),
    ensures
        speaks(m, from),
{
    let i = choose|i: int|
        0 <= i < m.servers.len() && (#[trigger] m.collected().servers[i]).id == from
            && m.collected().servers[i].state != ServerState::Stopped;
    assert(m.servers[i].id == from);
}

/// A vote that was given stands as long as the term lasts.
pub proof fn law_vote_stands(w: Sim, i: int)
    requires
        w.can_update(),
        0 <= i < w.model.servers.len(),
        w.model.servers[i].voted_for is Some,
        w.updated().model.servers[i].term == w.model.servers[i].term,
    ensures
        w.updated().model.servers[i].voted_for == w.model.servers[i].voted_for,
{
    law_tick_goes_on(w);
    assert(goes_on(w.model.collected().servers[i], w.updated().model.servers[i]));
}

/// Terms and commit indexes never go back.
pub proof fn law_terms_and_commits_never_go_back(w: Sim, i: int)
    requires
        w.can_update(),
        0 <= i < w.model.servers.len(),
    ensures
        w.updated().model.servers[i].term >= w.model.servers[i].term,
        w.updated().model.servers[i].commit_index >= w.model.servers[i].commit_index,
{
    law_tick_goes_on(w);
    assert(goes_on(w.model.collected().servers[i], w.updated().model.servers[i]));
}

/// A leader never changes its own log in a tick.
pub proof fn law_leader_leaves_its_log_alone(w: Sim, i: int)
    requires
        w.can_update(),
        0 <= i < w.model.servers.len(),
        w.model.servers[i].state == ServerState::Leader,
        w.updated().model.servers[i].state == ServerState::Leader,
        w.updated().model.servers[i].term == w.model.servers[i].term,
    ensures
        w.updated().model.servers[i].log == w.model.servers[i].log,
{
    law_tick_goes_on(w);
    assert(goes_on(w.model.collected().servers[i], w.updated().model.servers[i]));
}

/// Nothing happens to a server that is stopped.
pub proof fn law_stopped_server_does_nothing(w: Sim, i: int)
    requires
        w.can_update(),
        0 <= i < w.model.servers.len(),
        w.model.servers[i].state == ServerState::Stopped,
    ensures
        w.updated().model.servers[i] == w.model.servers[i],
{
    law_tick_goes_on(w);
    assert(goes_on(w.model.collected().servers[i], w.updated().model.servers[i]));
}

/// A server that is stopped sends nothing: every message that bears its name
/// after a tick was there before, if no other server goes by that name.
pub proof fn law_stopped_server_sends_nothing(w: Sim, i: int, k: int)
    requires
        w.can_update(),
        0 <= i < w.model.servers.len(),
        w.model.servers[i].state == ServerState::Stopped,
        forall|j: int|
            0 <= j < w.model.servers.len() && j != i ==> (#[trigger] w.model.servers[j]).id
                != w.model.servers[i].id,
        0 <= k < w.updated().model.messages.len(),
        w.updated().model.messages[k].from == w.model.servers[i].id,
    ensures
        w.model.messages.contains(w.updated().model.messages[k]),
{
    law_tick_goes_on(w);
    let kept = w.model.collected().messages;
    let left = w.updated().model.messages;
    if k < kept.len() {
        lemma_filtered(w.model.messages, |m: MessageView| w.model.time < m.recv_time < INF, k);
        assert(left[k] == kept[k]);
    } else {
        lemma_speaks_collected(w.model, left[k].from);
    }
}

/// A restart costs a server its office, but not its term, vote or log.
pub proof fn law_restart_keeps_what_is_stored(w: Sim, si: int)
    requires
        0 <= si < w.model.servers.len(),
    ensures
        w.restarted(si).server(si) == (ServerView {
            state: ServerState::Follower,
            election_alarm: alarm(w.model.time, w.draw()),
            ..w.server(si)
        }),
        forall|j: int|
            0 <= j < w.model.servers.len() && j != si ==> #[trigger] w.restarted(
                si,
            ).model.servers[j] == w.model.servers[j],
{
    assert(w.restarted(si).server(si) =~= ServerView {
        state: ServerState::Follower,
        election_alarm: alarm(w.model.time, w.draw()),
        ..w.server(si)
    });
}

// ----- commitment -----

/// A server commits of its own accord only as leader, only up to an entry of
/// its own term, and only what at most a minority of the replicas may lack.
pub proof fn law_commit_needs_majority_and_own_term(s: ServerView)
    requires
        s.wf(),
        s.committing().commit_index != s.commit_index,
    ensures
        s.state == ServerState::Leader,
        s.committing().commit_index > s.commit_index,
        term_at(s.log, s.committing().commit_index as int) == s.term,
        s.trailing(s.committing().commit_index as int) <= NUM_SERVERS / 2,
        s.term > 0 ==> s.committing().commit_index <= s.log.len(),
{
    lemma_wf_replicas(s);
    lemma_agreed(s);
}

// ----- logs -----

/// The log holds the terms of `entries` behind `prev_index`.
pub open spec fn holds(log: Seq<EntryView>, prev_index: int, entries: Seq<EntryView>) -> bool {
    &&& prev_index + entries.len() <= log.len()
    &&& forall|j: int|
        0 <= j < entries.len() ==> term_at(log, prev_index + j + 1) == (#[trigger] entries[j]).term
}

/// Entries of genuine terms: 0 is none.
pub open spec fn genuine(entries: Seq<EntryView>) -> bool {
    forall|j: int| 0 <= j < entries.len() ==> (#[trigger] entries[j]).term > 0
}

/// Placing entries behind a point in the log leaves the log up to that point
/// alone; afterwards the log holds them.
pub proof fn law_merged_log_holds_the_entries(
    log: Seq<EntryView>,
    prev_index: int,
    entries: Seq<EntryView>,
)
    requires
        0 <= prev_index <= log.len(),
        genuine(entries),
    ensures
        merged(log, prev_index, entries).take(prev_index) == log.take(prev_index),
        holds(merged(log, prev_index, entries), prev_index, entries),
    decreases entries.len(),
{
    if entries.len() > 0 {
        let front = entries.drop_last();
        assert forall|j: int| 0 <= j < front.len() implies (#[trigger] front[j]).term > 0 by {
            assert(front[j] == entries[j]);
        }
        law_merged_log_holds_the_entries(log, prev_index, front);
        let m0 = merged(log, prev_index, front);
        let m1 = merged(log, prev_index, entries);
        let index = prev_index + entries.len();
        assert(entries.last() == entries[entries.len() - 1]);
        assert(m1.take(prev_index) =~= m0.take(prev_index));
        assert forall|j: int| 0 <= j < entries.len() implies term_at(m1, prev_index + j + 1) == (
        #[trigger] entries[j]).term by {
            if j < front.len() {
                assert(front[j] == entries[j]);
                assert(term_at(m0, prev_index + j + 1) == front[j].term);
            }
        }
    }
}

/// Entries that the log already holds change nothing, so a request that comes
/// twice does no more than one that comes once.
pub proof fn law_merging_again_changes_nothing(
    log: Seq<EntryView>,
    prev_index: int,
    entries: Seq<EntryView>,
)
    requires
        0 <= prev_index <= log.len(),
        holds(log, prev_index, entries),
    ensures
        merged(log, prev_index, entries) == log,
    decreases entries.len(),
{
    if entries.len() > 0 {
        let front = entries.drop_last();
        assert forall|j: int| 0 <= j < front.len() implies term_at(log, prev_index + j + 1) == (
        #[trigger] front[j]).term by {
            assert(front[j] == entries[j]);
        }
        law_merging_again_changes_nothing(log, prev_index, front);
        assert(entries.last() == entries[entries.len() - 1]);
    }
}

/// Where the log conflicts with the entries, it is cut, and the entries take
/// the place of what followed.
pub proof fn law_conflict_is_overwritten(
    log: Seq<EntryView>,
    prev_index: int,
    entries: Seq<EntryView>,
    d: int,
)
    requires
        0 <= prev_index <= log.len(),
        genuine(entries),
        0 <= d < entries.len(),
        holds(log, prev_index, entries.take(d)),
        term_at(log, prev_index + d + 1) != entries[d].term,
    ensures
        merged(log, prev_index, entries) == log.take(prev_index + d) + entries.skip(d),
    decreases entries.len(),
{
    let front = entries.drop_last();
    let n = entries.len();
    if d == n - 1 {
        assert(entries.take(d) =~= front);
        law_merging_again_changes_nothing(log, prev_index, front);
        assert(merged(log, prev_index, entries) =~= log.take(prev_index + d) + entries.skip(d));
    } else {
        assert(front.take(d) =~= entries.take(d));
        assert forall|j: int| 0 <= j < front.len() implies (#[trigger] front[j]).term > 0 by {
            assert(front[j] == entries[j]);
        }
        law_conflict_is_overwritten(log, prev_index, front, d);
        let m0 = log.take(prev_index + d) + front.skip(d);
        assert(m0.len() == prev_index + n - 1);
        assert(entries[n - 1].term > 0);
        assert(merged(log, prev_index, entries) =~= log.take(prev_index + d) + entries.skip(d));
    }
}

} // verus!
