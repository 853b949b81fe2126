//! Laws of the cluster: what holds of every simulation, whatever chance brings.

use crate::protocol::{peers_of, BodyView, MessageView, ModelView, ServerView, Sim};
use crate::raft::{ServerState, NUM_SERVERS};
use crate::safety::{
    lemma_advance_commit_index, lemma_become_leader, lemma_handle_append_entries_reply,
    lemma_handle_append_entries_request, lemma_handle_request_vote_reply,
    lemma_handle_request_vote_request, lemma_send_append_entries, lemma_send_request_vote,
    lemma_quiet_move, lemma_start_new_election, Ballots,
};
use crate::tick::{
    lemma_all_rules_applied, lemma_filtered, lemma_own_rules, lemma_peers_contacted,
};
use crate::util::{RandomView, INF};
use crate::validity::{lemma_first_called, lemma_for_all_peers};
use vstd::prelude::*;

verus! {

// ----- what is regular stays so through a tick -----

proof fn lemma_regular_peers(w: Sim, si: int, n: nat, b: Ballots)
    requires
        0 <= si < w.model.servers.len(),
        w.model.regular(b, Seq::empty()),
        n <= w.server(si).peers.len(),
    ensures
        w.peers_contacted(si, n).model.regular(b, Seq::empty()),
    decreases n,
{
    if n > 0 {
        lemma_regular_peers(w, si, (n - 1) as nat, b);
        assert(w.server(si).sound(b));
        lemma_peers_contacted(w, si, (n - 1) as nat);
        let v = w.peers_contacted(si, (n - 1) as nat);
        let peer = w.server(si).peers[n - 1];
        assert(v.server(si).peers.contains(peer));
        lemma_send_request_vote(v, si, peer, b, Seq::empty());
        let v1 = v.send_request_vote(si, peer);
        assert(v1.server(si).peers == v.server(si).peers);
        lemma_send_append_entries(v1, si, peer, b, Seq::empty());
    }
}

proof fn lemma_regular_rules(w: Sim, si: int, b: Ballots) -> (b1: Ballots)
    requires
        0 <= si < w.model.servers.len(),
        w.model.regular(b, Seq::empty()),
        w.server(si).can_stand(w.model.time),
    ensures
        w.rules_applied(si).model.regular(b1, Seq::empty()),
{
    assert(w.server(si).sound(b));
    lemma_own_rules(w, si);
    let b1 = lemma_start_new_election(w, si, b, Seq::empty());
    let w1 = w.start_new_election(si);
    lemma_become_leader(w1.model, si, b1, Seq::empty());
    let w2 = w1.become_leader(si);
    lemma_advance_commit_index(w2.model, si, b1, Seq::empty());
    let w3 = w2.advance_commit_index(si);
    lemma_regular_peers(w3, si, w.server(si).peers.len(), b1);
    b1
}

/// A lawful cluster is in order.
pub proof fn law_lawful_is_in_order(m: ModelView)
    requires
        m.lawful(),
    ensures
        m.wf(),
{
    let b = choose|b: Ballots| #[trigger] m.regular(b, Seq::empty());
    assert forall|i: int| 0 <= i < m.servers.len() implies (#[trigger] m.servers[i]).wf() by {
        assert(m.servers[i].sound(b));
    }
    assert forall|k: int| 0 <= k < m.messages.len() implies m.manageable(
        #[trigger] m.messages[k],
    ) by {
        assert(m.proper(b, m.messages[k]));
        lemma_first_called(m.servers, m.messages[k].to);
    }
}

proof fn lemma_regular_all_rules(w: Sim, n: nat, b: Ballots) -> (b1: Ballots)
    requires
        n <= w.model.servers.len(),
        w.model.regular(b, Seq::empty()),
        forall|i: int|
            0 <= i < w.model.servers.len() ==> (#[trigger] w.model.servers[i]).can_stand(
                w.model.time,
            ),
    ensures
        w.all_rules_applied(n).model.regular(b1, Seq::empty()),
    decreases n,
{
    if n == 0 {
        b
    } else {
        let b0 = lemma_regular_all_rules(w, (n - 1) as nat, b);
        law_lawful_is_in_order(w.model);
        lemma_all_rules_applied(w, (n - 1) as nat);
        let v = w.all_rules_applied((n - 1) as nat);
        assert(v.model.servers[n - 1] == w.model.servers[n - 1]);
        lemma_regular_rules(v, n - 1, b0)
    }
}

proof fn lemma_regular_delivered(
    w: Sim,
    msg: MessageView,
    b: Ballots,
    pending: Seq<MessageView>,
) -> (b1: Ballots)
    requires
        w.model.regular(b, pending),
        pending.contains(msg),
    ensures
        w.delivered(msg).model.regular(b1, pending),
{
    lemma_first_called(w.model.servers, msg.to);
    let si = w.model.position(msg.to);
    if si < w.model.servers.len() && w.server(si).state != ServerState::Stopped {
        match msg.body {
            BodyView::RequestVoteReq { .. } => lemma_handle_request_vote_request(
                w,
                si,
                msg,
                b,
                pending,
            ),
            BodyView::RequestVoteRep { .. } => {
                lemma_handle_request_vote_reply(w, si, msg, b, pending);
                b
            },
            BodyView::AppendEntriesReq { .. } => {
                lemma_handle_append_entries_request(w, si, msg, b, pending);
                b
            },
            BodyView::AppendEntriesRep { .. } => {
                lemma_handle_append_entries_reply(w, si, msg, b, pending);
                b
            },
        }
    } else {
        b
    }
}

proof fn lemma_regular_all_delivered(
    w: Sim,
    msgs: Seq<MessageView>,
    b: Ballots,
    pending: Seq<MessageView>,
) -> (b1: Ballots)
    requires
        w.model.regular(b, pending),
        forall|k: int| 0 <= k < msgs.len() ==> pending.contains(#[trigger] msgs[k]),
    ensures
        w.all_delivered(msgs).model.regular(b1, pending),
    decreases msgs.len(),
{
    if msgs.len() == 0 {
        b
    } else {
        assert forall|k: int| 0 <= k < msgs.drop_last().len() implies pending.contains(
            #[trigger] msgs.drop_last()[k],
        ) by {
            assert(msgs.drop_last()[k] == msgs[k]);
        }
        let b0 = lemma_regular_all_delivered(w, msgs.drop_last(), b, pending);
        assert(msgs.last() == msgs[msgs.len() - 1]);
        lemma_regular_delivered(w.all_delivered(msgs.drop_last()), msgs.last(), b0, pending)
    }
}

/// Taking the messages that have arrived off the network leaves all regular.
pub proof fn lemma_regular_collected(m: ModelView, b: Ballots)
    requires
        m.regular(b, Seq::empty()),
    ensures
        m.collected().regular(b, m.arrived()),
        forall|k: int| 0 <= k < m.arrived().len() ==> m.messages.contains(#[trigger] m.arrived()[k]),
        forall|k: int|
            0 <= k < m.collected().messages.len() ==> m.messages.contains(
                #[trigger] m.collected().messages[k],
            ),
{
    let msgs = m.arrived();
    let n = m.collected();
    assert forall|k: int| 0 <= k < msgs.len() implies m.messages.contains(#[trigger] msgs[k])
        && n.proper(b, msgs[k]) by {
        lemma_filtered(m.messages, |x: MessageView| x.recv_time <= m.time, k);
        let j = choose|j: int| 0 <= j < m.messages.len() && m.messages[j] == msgs[k];
        assert(m.proper(b, m.messages[j]));
    }
    assert forall|k: int| 0 <= k < n.messages.len() implies m.messages.contains(
        #[trigger] n.messages[k],
    ) && n.proper(b, n.messages[k]) by {
        lemma_filtered(
            m.messages,
            |x: MessageView| m.time < x.recv_time < INF,
            k,
        );
        let j = choose|j: int| 0 <= j < m.messages.len() && m.messages[j] == n.messages[k];
        assert(m.proper(b, m.messages[j]));
    }
    assert(n.acquainted()) by {
        assert(n.servers == m.servers);
        assert forall|i: int, p: u32|
            #![trigger n.servers[i].peers.contains(p)]
            0 <= i < n.servers.len() && n.servers[i].peers.contains(p) implies exists|j: int|
            0 <= j < n.servers.len() && (#[trigger] n.servers[j]).id == p by {
            assert(m.servers[i].peers.contains(p));
            let j = choose|j: int| 0 <= j < m.servers.len() && (#[trigger] m.servers[j]).id == p;
            assert(n.servers[j].id == p);
        }
    }
}

/// A tick keeps a cluster lawful, as long as there is a next term for every
/// server that may stand for election.
pub proof fn law_update_keeps_lawful(w: Sim)
    requires
        w.model.lawful(),
        forall|i: int|
            0 <= i < w.model.servers.len() ==> (#[trigger] w.model.servers[i]).can_stand(
                w.model.time,
            ),
    ensures
        w.updated().model.lawful(),
{
    let b = choose|b: Ballots| #[trigger] w.model.regular(b, Seq::empty());
    let n = w.model.servers.len();
    let b1 = lemma_regular_all_rules(w, n, b);
    let v = w.all_rules_applied(n);
    let msgs = v.model.arrived();
    lemma_regular_collected(v.model, b1);
    let b2 = lemma_regular_all_delivered(
        Sim { model: v.model.collected(), ..v },
        msgs,
        b1,
        msgs,
    );
    assert(w.updated().model.regular(b2, Seq::empty()));
}

// ----- one leader per term -----

/// A term has at most one leader.
pub proof fn law_one_leader_per_term(m: ModelView, i: int, j: int)
    requires
        m.lawful(),
        m.servers.len() <= NUM_SERVERS,
        0 <= i < m.servers.len(),
        0 <= j < m.servers.len(),
        m.servers[i].state == ServerState::Leader,
        m.servers[j].state == ServerState::Leader,
        m.servers[i].term == m.servers[j].term,
    ensures
        i == j,
{
    let b = choose|b: Ballots| #[trigger] m.regular(b, Seq::empty());
    let s = m.servers[i];
    let t = m.servers[j];
    assert(s.sound(b) && t.sound(b));
    let ids = m.servers.map_values(|s: ServerView| s.id);
    let vs = s.granters().insert(s.id);
    let vt = t.granters().insert(t.id);
    assert(s.granters().subset_of(s.vote_granted.dom()));
    assert(t.granters().subset_of(t.vote_granted.dom()));
    vstd::set_lib::lemma_len_subset(s.granters(), s.vote_granted.dom());
    vstd::set_lib::lemma_len_subset(t.granters(), t.vote_granted.dom());
    assert(!s.granters().contains(s.id));
    assert(!t.granters().contains(t.id));
    vstd::seq_lib::seq_to_set_is_finite(ids);
    ids.lemma_cardinality_of_set();
    assert forall|p: u32| vs.contains(p) || vt.contains(p) implies #[trigger] ids.to_set().contains(
        p,
    ) by {
        if s.peers.contains(p) {
            assert(m.servers[i].peers.contains(p));
        }
        if t.peers.contains(p) {
            assert(m.servers[j].peers.contains(p));
        }
        if p == s.id {
            assert(ids[i] == p);
        } else if p == t.id {
            assert(ids[j] == p);
        } else {
            let k = choose|k: int| 0 <= k < m.servers.len() && (#[trigger] m.servers[k]).id == p;
            assert(ids[k] == p);
        }
    }
    if vs.disjoint(vt) {
        vstd::set_lib::lemma_set_disjoint_lens(vs, vt);
        vstd::set_lib::lemma_len_subset(vs + vt, ids.to_set());
        assert(false);
    }
    let p = choose|p: u32| vs.contains(p) && vt.contains(p);
    assert(b[(p, s.term)] == s.id);
    assert(b[(p, t.term)] == t.id);
}

// ----- where a cluster begins -----

/// The servers of a new cluster.
pub proof fn lemma_founded(rng: RandomView, n: nat)
    requires
        n <= NUM_SERVERS,
    ensures
        Sim::founded(rng, n).model.servers.len() == n,
        Sim::founded(rng, n).model.messages == Seq::<MessageView>::empty(),
        Sim::founded(rng, n).model.time == 0,
        forall|i: int|
            0 <= i < n ==> (#[trigger] Sim::founded(rng, n).model.servers[i]) == ServerView::fresh(
                (i + 1) as u32,
                peers_of((i + 1) as u32),
                Sim::founded(rng, n).model.servers[i].election_alarm,
            ),
    decreases n,
{
    if n > 0 {
        lemma_founded(rng, (n - 1) as nat);
        let w = Sim::founded(rng, (n - 1) as nat);
        let v = Sim::founded(rng, n);
        assert forall|i: int| 0 <= i < n - 1 implies #[trigger] v.model.servers[i]
            == w.model.servers[i] by {}
    }
}

/// Server `id` of a new cluster knows all the others and not itself.
pub proof fn lemma_peers_of(id: u32, p: u32)
    requires
        1 <= id <= NUM_SERVERS,
    ensures
        peers_of(id).contains(p) <==> 1 <= p <= NUM_SERVERS && p != id,
        peers_of(id).to_set().len() == NUM_SERVERS - 1,
{
    let peers = peers_of(id);
    if 1 <= p <= NUM_SERVERS && p != id {
        if p < id {
            assert(peers[p - 1] == p);
        } else {
            assert(peers[p - 2] == p);
        }
    }
    assert(peers.no_duplicates());
    peers.unique_seq_to_set();
}

/// In a new cluster all is as the protocol wants it, and nobody has voted.
pub proof fn lemma_new_cluster(rng: RandomView)
    ensures
        Sim::founded(rng, NUM_SERVERS as nat).model.regular(Map::empty(), Seq::empty()),
{
    let m = Sim::founded(rng, NUM_SERVERS as nat).model;
    let b: Ballots = Map::empty();
    lemma_founded(rng, NUM_SERVERS as nat);
    assert forall|i: int| 0 <= i < m.servers.len() implies (#[trigger] m.servers[i]).sound(b)
        && m.servers[i].id == i + 1 && m.servers[i].peers == peers_of((i + 1) as u32) by {
        let s = m.servers[i];
        lemma_peers_of(s.id, s.id);
        lemma_for_all_peers(s.peers, false);
        lemma_for_all_peers(s.peers, 0usize);
    }
    assert forall|i: int, p: u32|
        #![trigger m.servers[i].peers.contains(p)]
        0 <= i < m.servers.len() && m.servers[i].peers.contains(p) implies exists|j: int|
        0 <= j < m.servers.len() && (#[trigger] m.servers[j]).id == p by {
        lemma_peers_of(m.servers[i].id, p);
        assert(m.servers[p - 1].id == p);
    }
    assert forall|i: int, j: int|
        #![trigger m.servers[i], m.servers[j]]
        0 <= i < m.servers.len() && 0 <= j < m.servers.len() && m.servers[i].peers.contains(
            m.servers[j].id,
        ) implies m.servers[j].peers.contains(m.servers[i].id) by {
        lemma_peers_of(m.servers[i].id, m.servers[j].id);
        lemma_peers_of(m.servers[j].id, m.servers[i].id);
    }
    assert(m.regular(b, Seq::empty()));
}

/// A new cluster is lawful.
pub proof fn law_new_cluster_is_lawful(rng: RandomView)
    ensures
        Sim::founded(rng, NUM_SERVERS as nat).model.lawful(),
        Sim::founded(rng, NUM_SERVERS as nat).model.servers.len() == NUM_SERVERS,
{
    lemma_new_cluster(rng);
    lemma_founded(rng, NUM_SERVERS as nat);
}

// ----- user actions -----

/// `n` differs from `m` in nothing but clock, timers and messages lost.
pub open spec fn alike(m: ModelView, n: ModelView) -> bool {
    &&& n.servers.len() == m.servers.len()
    &&& forall|i: int|
        0 <= i < m.servers.len() ==> (#[trigger] n.servers[i]) == (ServerView {
            election_alarm: n.servers[i].election_alarm,
            ..m.servers[i]
        })
    &&& forall|k: int| 0 <= k < n.messages.len() ==> m.messages.contains(#[trigger] n.messages[k])
}

/// What is alike is as regular.
pub proof fn lemma_regular_alike(m: ModelView, n: ModelView, b: Ballots)
    requires
        m.regular(b, Seq::empty()),
        alike(m, n),
    ensures
        n.regular(b, Seq::empty()),
{
    assert forall|i: int| 0 <= i < n.servers.len() implies (#[trigger] n.servers[i]).sound(b) by {
        assert(m.servers[i].sound(b));
        assert(n.servers[i].granters() =~= m.servers[i].granters());
    }
    assert forall|k: int| 0 <= k < n.messages.len() implies n.proper(
        b,
        #[trigger] n.messages[k],
    ) by {
        let msg = n.messages[k];
        let j = choose|j: int| 0 <= j < m.messages.len() && m.messages[j] == msg;
        assert(m.proper(b, m.messages[j]));
        assert forall|i: int|
            #![trigger n.servers[i]]
            0 <= i < n.servers.len() implies {
            &&& n.servers[i].id == msg.from ==> n.servers[i].sent(msg)
            &&& n.servers[i].id == msg.to ==> n.servers[i].expects(msg)
        } by {
            assert(m.servers[i].id == n.servers[i].id);
        }
    }
    assert(n.acquainted()) by {
        assert(forall|i: int|
            0 <= i < m.servers.len() ==> (#[trigger] n.servers[i]).id == m.servers[i].id
                && n.servers[i].peers == m.servers[i].peers);
        assert forall|i: int, p: u32|
            #![trigger n.servers[i].peers.contains(p)]
            0 <= i < n.servers.len() && n.servers[i].peers.contains(p) implies exists|j: int|
            0 <= j < n.servers.len() && (#[trigger] n.servers[j]).id == p by {
            assert(m.servers[i].peers.contains(p));
            let j = choose|j: int| 0 <= j < m.servers.len() && (#[trigger] m.servers[j]).id == p;
            assert(n.servers[j].id == p);
        }
    }
}

/// Moving the clock or election timers, and losing messages, keeps a cluster
/// lawful.
pub proof fn law_clock_timers_and_losses_keep_lawful(m: ModelView, n: ModelView)
    requires
        m.lawful(),
        alike(m, n),
    ensures
        n.lawful(),
{
    let b = choose|b: Ballots| #[trigger] m.regular(b, Seq::empty());
    lemma_regular_alike(m, n, b);
}

/// A cluster is alike to itself at another time.
pub proof fn lemma_alike_at_time(m: ModelView, time: u64)
    ensures
        alike(m, m.at_time(time)),
{
    assert forall|k: int| 0 <= k < m.messages.len() implies m.messages.contains(
        #[trigger] m.messages[k],
    ) by {}
}

/// A cluster is alike to itself with a message lost.
pub proof fn lemma_alike_dropped(m: ModelView, i: int)
    ensures
        alike(m, m.message_dropped(i)),
{
    let n = m.message_dropped(i);
    assert forall|k: int| 0 <= k < n.messages.len() implies m.messages.contains(
        #[trigger] n.messages[k],
    ) by {
        if 0 <= i < m.messages.len() && k >= i {
            assert(n.messages[k] == m.messages[k + 1]);
        } else {
            assert(n.messages[k] == m.messages[k]);
        }
    }
}

/// A cluster is alike to itself with its timers spread or aligned.
pub proof fn lemma_alike_retimed(m: ModelView)
    ensures
        alike(m, m.timers_spread()),
        alike(m, m.timers_aligned()),
{
    assert forall|k: int| 0 <= k < m.messages.len() implies m.messages.contains(
        #[trigger] m.messages[k],
    ) by {}
}

/// Setting the clock keeps a cluster lawful.
pub proof fn law_setting_the_clock_keeps_lawful(m: ModelView, time: u64)
    requires
        m.lawful(),
    ensures
        m.at_time(time).lawful(),
{
    lemma_alike_at_time(m, time);
    law_clock_timers_and_losses_keep_lawful(m, m.at_time(time));
}

/// Losing a message keeps a cluster lawful.
pub proof fn law_drop_keeps_lawful(m: ModelView, i: int)
    requires
        m.lawful(),
    ensures
        m.message_dropped(i).lawful(),
{
    lemma_alike_dropped(m, i);
    law_clock_timers_and_losses_keep_lawful(m, m.message_dropped(i));
}

/// Spreading or aligning the election timers keeps a cluster lawful.
pub proof fn law_timers_keep_lawful(m: ModelView)
    requires
        m.lawful(),
    ensures
        m.timers_spread().lawful(),
        m.timers_aligned().lawful(),
{
    lemma_alike_retimed(m);
    law_clock_timers_and_losses_keep_lawful(m, m.timers_spread());
    law_clock_timers_and_losses_keep_lawful(m, m.timers_aligned());
}

/// Stopping a server keeps a cluster lawful.
pub proof fn law_stop_keeps_lawful(m: ModelView, si: int)
    requires
        m.lawful(),
        0 <= si < m.servers.len(),
    ensures
        m.stopped(si).lawful(),
{
    let b = choose|b: Ballots| #[trigger] m.regular(b, Seq::empty());
    let t = m.stopped(si).servers[si];
    assert(m.servers[si].sound(b));
    assert(t.sound(b));
    lemma_quiet_move(m, b, b, Seq::empty(), si, t);
}

/// Resuming a server keeps a cluster lawful.
pub proof fn law_resume_keeps_lawful(w: Sim, si: int)
    requires
        w.model.lawful(),
        0 <= si < w.model.servers.len(),
    ensures
        w.resumed(si).model.lawful(),
{
    let b = choose|b: Ballots| #[trigger] w.model.regular(b, Seq::empty());
    let t = w.resumed(si).server(si);
    assert(w.server(si).sound(b));
    assert(t.sound(b));
    lemma_quiet_move(w.model, b, b, Seq::empty(), si, t);
}

/// Resuming servers keeps a cluster lawful.
pub proof fn law_resume_all_keeps_lawful(w: Sim, n: nat)
    requires
        w.model.lawful(),
        n <= w.model.servers.len(),
    ensures
        w.all_resumed(n).model.lawful(),
        w.all_resumed(n).model.servers.len() == w.model.servers.len(),
    decreases n,
{
    if n > 0 {
        law_resume_all_keeps_lawful(w, (n - 1) as nat);
        law_resume_keeps_lawful(w.all_resumed((n - 1) as nat), n - 1);
    }
}

/// Restarting a server keeps a cluster lawful.
pub proof fn law_restart_keeps_lawful(w: Sim, si: int)
    requires
        w.model.lawful(),
        0 <= si < w.model.servers.len(),
    ensures
        w.restarted(si).model.lawful(),
{
    law_stop_keeps_lawful(w.model, si);
    law_resume_keeps_lawful(w.stopped(si), si);
}

/// Timing a server out keeps a cluster lawful.
pub proof fn law_timeout_keeps_lawful(w: Sim, si: int)
    requires
        w.model.lawful(),
        0 <= si < w.model.servers.len(),
        w.server(si).term < u64::MAX,
    ensures
        w.timed_out(si).model.lawful(),
{
    let b = choose|b: Ballots| #[trigger] w.model.regular(b, Seq::empty());
    let s = w.server(si);
    let t = ServerView { state: ServerState::Follower, election_alarm: 0, ..s };
    assert(s.sound(b));
    assert(t.sound(b));
    lemma_quiet_move(w.model, b, b, Seq::empty(), si, t);
    let b1 = lemma_start_new_election(w.with(si, t), si, b, Seq::empty());
    assert(w.timed_out(si).model.regular(b1, Seq::empty()));
}

/// A client's request keeps a cluster lawful, as long as the log has room.
pub proof fn law_request_keeps_lawful(m: ModelView, si: int)
    requires
        m.lawful(),
        0 <= si < m.servers.len(),
        m.servers[si].log.len() + 1 < usize::MAX,
    ensures
        m.requested(si).lawful(),
{
    let b = choose|b: Ballots| #[trigger] m.regular(b, Seq::empty());
    let s = m.servers[si];
    if s.state == ServerState::Leader {
        let t = m.requested(si).servers[si];
        assert(s.sound(b));
        assert(t.granters() =~= s.granters());
        assert(t.sound(b));
        lemma_quiet_move(m, b, b, Seq::empty(), si, t);
    }
}

} // verus!
