//! Laws of consensus: logs that match, leaders that have all that is
//! committed, and servers that never disagree on it.

use crate::annals::{agree, lemma_agree_less, lemma_agree_transitive, Annals};
use crate::cluster_laws::{
    law_ready_can_update, law_terms_and_commits_never_go_back, law_tick_keeps_the_clock,
};
use crate::consistency::{
    lemma_committed_log, lemma_entry_shown, lemma_no_news, lemma_recorded_append_entries_reply,
    lemma_recorded_append_entries_request, lemma_recorded_become_leader, lemma_recorded_commit,
    lemma_recorded_election_start, lemma_recorded_move, lemma_recorded_request_vote_reply,
    lemma_recorded_request_vote_request, lemma_recorded_send_append_entries,
    lemma_recorded_send_request_vote,
};
use crate::laws::{
    alike, law_lawful_is_in_order, lemma_alike_at_time, lemma_alike_dropped, lemma_alike_retimed,
    lemma_founded, lemma_new_cluster, lemma_peers_of, lemma_regular_alike, lemma_regular_collected,
};
use crate::protocol::{BodyView, EntryView, MessageView, ModelView, ServerView, Sim};
use crate::raft::{ServerState, NUM_SERVERS};
use crate::safety::lemma_quiet_move;
use crate::tick::{lemma_all_rules_applied, lemma_own_rules, lemma_peers_contacted};
use crate::util::RandomView;
use crate::validity::lemma_first_called;
use vstd::prelude::*;

verus! {

impl ModelView {
    /// The cluster is lawful, and what its servers hold and say is what its
    /// leaders wrote.
    pub open spec fn consistent(self) -> bool {
        exists|h: Annals| #[trigger] self.recorded(h, Seq::empty())
    }
}

/// A consistent cluster is lawful.
pub proof fn law_consistent_is_lawful(m: ModelView)
    requires
        m.consistent(),
    ensures
        m.lawful(),
{
    let h = choose|h: Annals| #[trigger] m.recorded(h, Seq::empty());
    assert(m.regular(h.ballots, Seq::empty()));
}

// ----- what consistency means -----

/// Log matching: if two logs have an entry of the same term at the same place,
/// they are the same up to there.
pub proof fn law_logs_match(m: ModelView, i: int, j: int, k: int)
    requires
        m.consistent(),
        0 <= i < m.servers.len(),
        0 <= j < m.servers.len(),
        0 <= k < m.servers[i].log.len(),
        k < m.servers[j].log.len(),
        m.servers[i].log[k].term == m.servers[j].log[k].term,
    ensures
        m.servers[i].log.take(k + 1) == m.servers[j].log.take(k + 1),
{
    let h = choose|h: Annals| #[trigger] m.recorded(h, Seq::empty());
    assert(h.show(m.servers[i]) && h.show(m.servers[j]));
    h.lemma_traced_match(m.servers[i].log, m.servers[j].log, k);
}

/// The terms in a log never go back.
pub proof fn law_terms_in_a_log_never_go_back(m: ModelView, i: int, j: int, k: int)
    requires
        m.consistent(),
        0 <= i < m.servers.len(),
        0 <= j <= k < m.servers[i].log.len(),
    ensures
        1 <= m.servers[i].log[j].term <= m.servers[i].log[k].term <= m.servers[i].term,
{
    let h = choose|h: Annals| #[trigger] m.recorded(h, Seq::empty());
    let s = m.servers[i];
    assert(h.show(s));
    let part = s.log.take(k + 1);
    h.lemma_traced_take(s.log, k + 1);
    h.lemma_traced_last(part);
    assert(part[j] == s.log[j]);
    assert(s.log[k].term <= s.term);
}

/// What a server takes as committed, it has.
pub proof fn law_committed_entries_are_there(m: ModelView, i: int)
    requires
        m.consistent(),
        0 <= i < m.servers.len(),
    ensures
        m.servers[i].commit_index <= m.servers[i].log.len(),
{
    let h = choose|h: Annals| #[trigger] m.recorded(h, Seq::empty());
    let s = m.servers[i];
    assert(h.show(s));
}

/// Leader completeness: a leader has everything that any server of its term
/// or an earlier one takes as committed.
pub proof fn law_leader_has_what_is_committed(m: ModelView, l: int, i: int)
    requires
        m.consistent(),
        0 <= l < m.servers.len(),
        0 <= i < m.servers.len(),
        m.servers[l].state == ServerState::Leader,
        m.servers[i].term <= m.servers[l].term,
    ensures
        m.servers[i].commit_index <= m.servers[l].log.len(),
        m.servers[l].log.take(m.servers[i].commit_index as int) == m.servers[i].log.take(
            m.servers[i].commit_index as int,
        ),
{
    let h = choose|h: Annals| #[trigger] m.recorded(h, Seq::empty());
    let s = m.servers[i];
    let c = s.commit_index as int;
    assert(h.show(s) && h.show(m.servers[l]));
    if c > 0 {
        let (t, k) = choose|t: u64, k: int|
            #![trigger h.own(t, k)]
            h.own(t, k) && t <= s.term && c <= k && h.committed(t, k) && agree(
                s.log,
                h.lore[t],
                c,
            );
        assert(h.own(t, k));
        assert(h.covered(s.log, c, m.servers[l].term));
        lemma_committed_log(h, s.log, c, m.servers[l].term);
    } else {
        assert(m.servers[l].log.take(0) =~= s.log.take(0));
    }
}

/// What is covered by two logs is the same in both.
pub proof fn lemma_covered_agree(
    h: Annals,
    a: Seq<EntryView>,
    ca: int,
    ta: u64,
    b: Seq<EntryView>,
    cb: int,
    tb: u64,
    c: int,
)
    requires
        h.right(),
        h.covered(a, ca, ta),
        h.covered(b, cb, tb),
        0 <= c <= ca,
        c <= cb,
    ensures
        a.take(c) == b.take(c),
{
    if c > 0 {
        let (t, k) = choose|t: u64, k: int|
            #![trigger h.own(t, k)]
            h.own(t, k) && t <= ta && ca <= k && h.committed(t, k) && agree(a, h.lore[t], ca);
        let (u, n) = choose|u: u64, n: int|
            #![trigger h.own(u, n)]
            h.own(u, n) && u <= tb && cb <= n && h.committed(u, n) && agree(b, h.lore[u], cb);
        lemma_agree_less(a, h.lore[t], ca, c);
        lemma_agree_less(b, h.lore[u], cb, c);
        if t <= u {
            assert(h.own(t, k));
            assert(h.covered(a, ca, u));
            lemma_committed_log(h, a, ca, u);
            lemma_agree_less(a, h.lore[u], ca, c);
        } else {
            assert(h.own(u, n));
            assert(h.covered(b, cb, t));
            lemma_committed_log(h, b, cb, t);
            lemma_agree_less(b, h.lore[t], cb, c);
        }
    } else {
        assert(a.take(0) =~= b.take(0));
    }
}

/// State machine safety: no two servers take different entries as committed
/// at the same place.
pub proof fn law_committed_logs_never_differ(m: ModelView, i: int, j: int, c: int)
    requires
        m.consistent(),
        0 <= i < m.servers.len(),
        0 <= j < m.servers.len(),
        0 <= c <= m.servers[i].commit_index,
        c <= m.servers[j].commit_index,
    ensures
        m.servers[i].log.take(c) == m.servers[j].log.take(c),
{
    let h = choose|h: Annals| #[trigger] m.recorded(h, Seq::empty());
    let (s, r) = (m.servers[i], m.servers[j]);
    assert(h.show(s) && h.show(r));
    lemma_covered_agree(
        h,
        s.log,
        s.commit_index as int,
        s.term,
        r.log,
        r.commit_index as int,
        r.term,
        c,
    );
}

// ----- a tick keeps a cluster consistent -----

proof fn lemma_recorded_peers(w: Sim, si: int, n: nat, h: Annals)
    requires
        0 <= si < w.model.servers.len(),
        w.model.recorded(h, Seq::empty()),
        n <= w.server(si).peers.len(),
    ensures
        w.peers_contacted(si, n).model.recorded(h, Seq::empty()),
    decreases n,
{
    if n > 0 {
        lemma_recorded_peers(w, si, (n - 1) as nat, h);
        assert(w.server(si).sound(h.ballots));
        lemma_peers_contacted(w, si, (n - 1) as nat);
        let v = w.peers_contacted(si, (n - 1) as nat);
        let peer = w.server(si).peers[n - 1];
        assert(v.server(si).peers.contains(peer));
        lemma_recorded_send_request_vote(v, si, peer, h, Seq::empty());
        let v1 = v.send_request_vote(si, peer);
        assert(v1.server(si).peers == v.server(si).peers);
        lemma_recorded_send_append_entries(v1, si, peer, h, Seq::empty());
    }
}

proof fn lemma_recorded_rules(w: Sim, si: int, h: Annals) -> (n: Annals)
    requires
        0 <= si < w.model.servers.len(),
        w.model.recorded(h, Seq::empty()),
        w.server(si).can_stand(w.model.time),
    ensures
        h.leads_to(n),
        w.rules_applied(si).model.recorded(n, Seq::empty()),
{
    assert(w.server(si).sound(h.ballots));
    lemma_own_rules(w, si);
    let h1 = lemma_recorded_election_start(w, si, h, Seq::empty());
    let w1 = w.start_new_election(si);
    let h2 = lemma_recorded_become_leader(w1.model, si, h1, Seq::empty());
    let w2 = w1.become_leader(si);
    let h3 = lemma_recorded_commit(w2.model, si, h2, Seq::empty());
    let w3 = w2.advance_commit_index(si);
    lemma_recorded_peers(w3, si, w.server(si).peers.len(), h3);
    h.lemma_leads_to_transitive(h1, h2);
    h.lemma_leads_to_transitive(h2, h3);
    h3
}

proof fn lemma_recorded_all_rules(w: Sim, n: nat, h: Annals) -> (h1: Annals)
    requires
        n <= w.model.servers.len(),
        w.model.recorded(h, Seq::empty()),
        forall|i: int|
            0 <= i < w.model.servers.len() ==> (#[trigger] w.model.servers[i]).can_stand(
                w.model.time,
            ),
    ensures
        h.leads_to(h1),
        w.all_rules_applied(n).model.recorded(h1, Seq::empty()),
    decreases n,
{
    if n == 0 {
        h
    } else {
        let h0 = lemma_recorded_all_rules(w, (n - 1) as nat, h);
        assert(w.model.regular(h.ballots, Seq::empty()));
        law_lawful_is_in_order(w.model);
        lemma_all_rules_applied(w, (n - 1) as nat);
        let v = w.all_rules_applied((n - 1) as nat);
        assert(v.model.servers[n - 1] == w.model.servers[n - 1]);
        let h1 = lemma_recorded_rules(v, n - 1, h0);
        h.lemma_leads_to_transitive(h0, h1);
        h1
    }
}

proof fn lemma_recorded_delivered(
    w: Sim,
    msg: MessageView,
    h: Annals,
    pending: Seq<MessageView>,
) -> (n: Annals)
    requires
        w.model.recorded(h, pending),
        pending.contains(msg),
    ensures
        h.leads_to(n),
        w.delivered(msg).model.recorded(n, pending),
{
    lemma_first_called(w.model.servers, msg.to);
    let si = w.model.position(msg.to);
    if si < w.model.servers.len() && w.server(si).state != ServerState::Stopped {
        match msg.body {
            BodyView::RequestVoteReq { .. } => lemma_recorded_request_vote_request(
                w,
                si,
                msg,
                h,
                pending,
            ),
            BodyView::RequestVoteRep { .. } => lemma_recorded_request_vote_reply(
                w,
                si,
                msg,
                h,
                pending,
            ),
            BodyView::AppendEntriesReq { .. } => lemma_recorded_append_entries_request(
                w,
                si,
                msg,
                h,
                pending,
            ),
            BodyView::AppendEntriesRep { .. } => lemma_recorded_append_entries_reply(
                w,
                si,
                msg,
                h,
                pending,
            ),
        }
    } else {
        h
    }
}

proof fn lemma_recorded_all_delivered(
    w: Sim,
    msgs: Seq<MessageView>,
    h: Annals,
    pending: Seq<MessageView>,
) -> (n: Annals)
    requires
        w.model.recorded(h, pending),
        forall|k: int| 0 <= k < msgs.len() ==> pending.contains(#[trigger] msgs[k]),
    ensures
        h.leads_to(n),
        w.all_delivered(msgs).model.recorded(n, pending),
    decreases msgs.len(),
{
    if msgs.len() == 0 {
        h
    } else {
        assert forall|k: int| 0 <= k < msgs.drop_last().len() implies pending.contains(
            #[trigger] msgs.drop_last()[k],
        ) by {
            assert(msgs.drop_last()[k] == msgs[k]);
        }
        let h0 = lemma_recorded_all_delivered(w, msgs.drop_last(), h, pending);
        assert(msgs.last() == msgs[msgs.len() - 1]);
        let v = w.all_delivered(msgs.drop_last());
        let h1 = lemma_recorded_delivered(v, msgs.last(), h0, pending);
        h.lemma_leads_to_transitive(h0, h1);
        h1
    }
}

/// A tick leaves a cluster recorded.
pub proof fn lemma_recorded_updated(w: Sim, h: Annals) -> (h2: Annals)
    requires
        w.model.recorded(h, Seq::empty()),
        forall|i: int|
            0 <= i < w.model.servers.len() ==> (#[trigger] w.model.servers[i]).can_stand(
                w.model.time,
            ),
    ensures
        w.updated().model.recorded(h2, Seq::empty()),
        h.leads_to(h2),
{
    let n = w.model.servers.len();
    let h1 = lemma_recorded_all_rules(w, n, h);
    let v = w.all_rules_applied(n);
    let msgs = v.model.arrived();
    let m1 = v.model.collected();
    lemma_regular_collected(v.model, h1.ballots);
    assert(m1.recorded(h1, msgs)) by {
        assert forall|k: int| 0 <= k < m1.messages.len() implies h1.bear_out(
            #[trigger] m1.messages[k],
        ) by {
            let j = choose|j: int|
                0 <= j < v.model.messages.len() && v.model.messages[j] == m1.messages[k];
            assert(h1.bear_out(v.model.messages[j]));
        }
        assert forall|k: int| 0 <= k < msgs.len() implies h1.bear_out(#[trigger] msgs[k]) by {
            let j = choose|j: int|
                0 <= j < v.model.messages.len() && v.model.messages[j] == msgs[k];
            assert(h1.bear_out(v.model.messages[j]));
        }
        assert forall|i: int| 0 <= i < m1.servers.len() implies h1.show(
            #[trigger] m1.servers[i],
        ) by {
            assert(h1.show(v.model.servers[i]));
        }
    }
    let h2 = lemma_recorded_all_delivered(Sim { model: m1, ..v }, msgs, h1, msgs);
    h.lemma_leads_to_transitive(h1, h2);
    assert(w.updated().model.recorded(h2, Seq::empty()));
    h2
}

/// A tick keeps a cluster consistent, as long as there is a next term for
/// every server that may stand for election.
pub proof fn law_update_keeps_consistent(w: Sim)
    requires
        w.model.consistent(),
        forall|i: int|
            0 <= i < w.model.servers.len() ==> (#[trigger] w.model.servers[i]).can_stand(
                w.model.time,
            ),
    ensures
        w.updated().model.consistent(),
{
    let h = choose|h: Annals| #[trigger] w.model.recorded(h, Seq::empty());
    let h2 = lemma_recorded_updated(w, h);
    assert(w.updated().model.recorded(h2, Seq::empty()));
}

/// What is covered stays covered.
pub proof fn lemma_covered_later(h: Annals, n: Annals, log: Seq<EntryView>, c: int, term: u64)
    requires
        h.leads_to(n),
        h.covered(log, c, term),
    ensures
        n.covered(log, c, term),
{
    if c != 0 {
        let (t, k) = choose|t: u64, k: int|
            #![trigger h.own(t, k)]
            h.own(t, k) && t <= term && c <= k && h.committed(t, k) && agree(log, h.lore[t], c);
        assert(h.led(t));
        assert(n.own(t, k));
        lemma_agree_transitive(log, h.lore[t], n.lore[t], c, h.lore[t].len() as int);
    }
}

/// What a server has taken as committed it never loses: after a tick it still
/// takes it as committed, and it is still the same.
pub proof fn law_committed_entries_are_never_lost(w: Sim, i: int)
    requires
        w.model.consistent(),
        forall|i: int|
            0 <= i < w.model.servers.len() ==> (#[trigger] w.model.servers[i]).can_stand(
                w.model.time,
            ),
        0 <= i < w.model.servers.len(),
    ensures
        w.updated().model.servers[i].commit_index >= w.model.servers[i].commit_index,
        w.updated().model.servers[i].log.take(w.model.servers[i].commit_index as int)
            == w.model.servers[i].log.take(w.model.servers[i].commit_index as int),
{
    let h = choose|h: Annals| #[trigger] w.model.recorded(h, Seq::empty());
    law_consistent_is_lawful(w.model);
    law_lawful_is_in_order(w.model);
    law_ready_can_update(w);
    law_terms_and_commits_never_go_back(w, i);
    law_tick_keeps_the_clock(w);
    let h2 = lemma_recorded_updated(w, h);
    let s = w.model.servers[i];
    let r = w.updated().model.servers[i];
    let c = s.commit_index as int;
    assert(h.show(s));
    assert(h2.show(r));
    lemma_covered_later(h, h2, s.log, c, s.term);
    lemma_covered_agree(h2, s.log, c, s.term, r.log, r.commit_index as int, r.term, c);
}

// ----- where a cluster begins -----

/// A new cluster is consistent.
pub proof fn law_new_cluster_is_consistent(rng: RandomView)
    ensures
        Sim::founded(rng, NUM_SERVERS as nat).model.consistent(),
{
    let m = Sim::founded(rng, NUM_SERVERS as nat).model;
    let h = Annals {
        members: Set::new(|p: u32| 1 <= p <= NUM_SERVERS),
        era: Map::new(|p: u32| true, |p: u32| 1u64),
        ballots: Map::empty(),
        founding: Map::empty(),
        lore: Map::empty(),
        chief: Map::empty(),
        electors: Map::empty(),
        stood: Map::empty(),
        shown: Map::empty(),
        acked: Map::empty(),
    };
    lemma_new_cluster(rng);
    lemma_founded(rng, NUM_SERVERS as nat);
    assert(h.members =~= set![1u32, 2u32, 3u32, 4u32, 5u32]);
    assert(h.right());
    assert forall|i: int| 0 <= i < m.servers.len() implies h.show(#[trigger] m.servers[i]) by {
        let s = m.servers[i];
        assert(s.peers.to_set() =~= h.members.remove(s.id)) by {
            assert forall|p: u32| #[trigger] s.peers.to_set().contains(p) <==> h.members.remove(
                s.id,
            ).contains(p) by {
                lemma_peers_of(s.id, p);
                assert(s.peers.to_set().contains(p) <==> s.peers.contains(p));
            }
        }
    }
    assert(m.recorded(h, Seq::empty()));
}

// ----- user actions -----

/// What is alike is recorded as well.
pub proof fn lemma_recorded_alike(m: ModelView, n: ModelView, h: Annals)
    requires
        m.recorded(h, Seq::empty()),
        alike(m, n),
    ensures
        n.recorded(h, Seq::empty()),
{
    lemma_regular_alike(m, n, h.ballots);
    assert forall|i: int| 0 <= i < n.servers.len() implies h.show(#[trigger] n.servers[i]) by {
        assert(h.show(m.servers[i]));
    }
    assert forall|k: int| 0 <= k < n.messages.len() implies h.bear_out(
        #[trigger] n.messages[k],
    ) by {
        let j = choose|j: int| 0 <= j < m.messages.len() && m.messages[j] == n.messages[k];
        assert(h.bear_out(m.messages[j]));
    }
}

/// Moving the clock or election timers, and losing messages, keeps a cluster
/// consistent.
pub proof fn law_clock_timers_and_losses_keep_consistent(m: ModelView, n: ModelView)
    requires
        m.consistent(),
        alike(m, n),
    ensures
        n.consistent(),
{
    let h = choose|h: Annals| #[trigger] m.recorded(h, Seq::empty());
    lemma_recorded_alike(m, n, h);
}

/// Setting the clock keeps a cluster consistent.
pub proof fn law_setting_the_clock_keeps_consistent(m: ModelView, time: u64)
    requires
        m.consistent(),
    ensures
        m.at_time(time).consistent(),
{
    lemma_alike_at_time(m, time);
    law_clock_timers_and_losses_keep_consistent(m, m.at_time(time));
}

/// Losing a message keeps a cluster consistent.
pub proof fn law_drop_keeps_consistent(m: ModelView, i: int)
    requires
        m.consistent(),
    ensures
        m.message_dropped(i).consistent(),
{
    lemma_alike_dropped(m, i);
    law_clock_timers_and_losses_keep_consistent(m, m.message_dropped(i));
}

/// Spreading or aligning the election timers keeps a cluster consistent.
pub proof fn law_timers_keep_consistent(m: ModelView)
    requires
        m.consistent(),
    ensures
        m.timers_spread().consistent(),
        m.timers_aligned().consistent(),
{
    lemma_alike_retimed(m);
    law_clock_timers_and_losses_keep_consistent(m, m.timers_spread());
    law_clock_timers_and_losses_keep_consistent(m, m.timers_aligned());
}

/// A server that gives up its office keeps a cluster recorded.
pub proof fn lemma_recorded_leave(m: ModelView, si: int, t: ServerView, h: Annals)
    requires
        m.recorded(h, Seq::empty()),
        0 <= si < m.servers.len(),
        t == (ServerView { state: t.state, election_alarm: t.election_alarm, ..m.servers[si] }),
        t.state == ServerState::Follower || t.state == ServerState::Stopped,
    ensures
        m.with(si, t).recorded(h, Seq::empty()),
{
    let s = m.servers[si];
    assert(h.show(s));
    assert(s.sound(h.ballots));
    assert(t.sound(h.ballots));
    lemma_quiet_move(m, h.ballots, h.ballots, Seq::empty(), si, t);
    lemma_no_news(h, s.id);
    assert(h.show(t));
    assert(m.with(si, t).messages =~= m.messages + Seq::<MessageView>::empty());
    lemma_recorded_move(m, h, Seq::empty(), si, t, Seq::empty(), h, m.with(si, t));
}

/// Stopping a server keeps a cluster consistent.
pub proof fn law_stop_keeps_consistent(m: ModelView, si: int)
    requires
        m.consistent(),
        0 <= si < m.servers.len(),
    ensures
        m.stopped(si).consistent(),
{
    let h = choose|h: Annals| #[trigger] m.recorded(h, Seq::empty());
    lemma_recorded_leave(m, si, m.stopped(si).servers[si], h);
}

/// Resuming a server keeps a cluster consistent.
pub proof fn law_resume_keeps_consistent(w: Sim, si: int)
    requires
        w.model.consistent(),
        0 <= si < w.model.servers.len(),
    ensures
        w.resumed(si).model.consistent(),
{
    let h = choose|h: Annals| #[trigger] w.model.recorded(h, Seq::empty());
    lemma_recorded_leave(w.model, si, w.resumed(si).server(si), h);
}

/// Resuming servers keeps a cluster consistent.
pub proof fn law_resume_all_keeps_consistent(w: Sim, n: nat)
    requires
        w.model.consistent(),
        n <= w.model.servers.len(),
    ensures
        w.all_resumed(n).model.consistent(),
        w.all_resumed(n).model.servers.len() == w.model.servers.len(),
    decreases n,
{
    if n > 0 {
        law_resume_all_keeps_consistent(w, (n - 1) as nat);
        law_resume_keeps_consistent(w.all_resumed((n - 1) as nat), n - 1);
    }
}

/// Restarting a server keeps a cluster consistent.
pub proof fn law_restart_keeps_consistent(w: Sim, si: int)
    requires
        w.model.consistent(),
        0 <= si < w.model.servers.len(),
    ensures
        w.restarted(si).model.consistent(),
{
    law_stop_keeps_consistent(w.model, si);
    law_resume_keeps_consistent(w.stopped(si), si);
}

/// Timing a server out keeps a cluster consistent.
pub proof fn law_timeout_keeps_consistent(w: Sim, si: int)
    requires
        w.model.consistent(),
        0 <= si < w.model.servers.len(),
        w.server(si).term < u64::MAX,
    ensures
        w.timed_out(si).model.consistent(),
{
    let h = choose|h: Annals| #[trigger] w.model.recorded(h, Seq::empty());
    let t = ServerView { state: ServerState::Follower, election_alarm: 0, ..w.server(si) };
    lemma_recorded_leave(w.model, si, t, h);
    let h1 = lemma_recorded_election_start(w.with(si, t), si, h, Seq::empty());
    assert(w.timed_out(si).model.recorded(h1, Seq::empty()));
}

/// A client's request leaves a cluster recorded.
pub proof fn lemma_recorded_request(m: ModelView, si: int, h: Annals) -> (n: Annals)
    requires
        m.recorded(h, Seq::empty()),
        0 <= si < m.servers.len(),
        m.servers[si].log.len() + 1 < usize::MAX,
    ensures
        m.requested(si).recorded(n, Seq::empty()),
        h.leads_to(n),
{
    let s = m.servers[si];
    if s.state == ServerState::Leader {
        let m1 = m.requested(si);
        let t = m1.servers[si];
        let e = EntryView { term: s.term, value: "v"@ };
        let n = h.entry(s.term, e);
        assert(h.show(s));
        assert(s.sound(h.ballots));
        assert(t.granters() =~= s.granters());
        assert(t.sound(h.ballots));
        lemma_quiet_move(m, h.ballots, h.ballots, Seq::empty(), si, t);
        h.lemma_entry(s.term, e);
        assert(n.show(t)) by {
            lemma_entry_shown(h, s, t, e);
        }
        assert(m1.messages =~= m.messages + Seq::<MessageView>::empty());
        lemma_recorded_move(m, h, Seq::empty(), si, t, Seq::empty(), n, m1);
        n
    } else {
        h
    }
}

/// A client's request keeps a cluster consistent, as long as the log has room.
pub proof fn law_request_keeps_consistent(m: ModelView, si: int)
    requires
        m.consistent(),
        0 <= si < m.servers.len(),
        m.servers[si].log.len() + 1 < usize::MAX,
    ensures
        m.requested(si).consistent(),
{
    let h = choose|h: Annals| #[trigger] m.recorded(h, Seq::empty());
    let n = lemma_recorded_request(m, si, h);
    assert(m.requested(si).recorded(n, Seq::empty()));
}

} // verus!
