//! One tick of the simulation.

use crate::protocol::{first_called, MessageView, ModelView, ServerView, Sim};
use crate::raft::{message_views, server_views, Message, Model};
use crate::util::{RandomSource, INF};
use crate::validity::{
    lemma_first_called, lemma_same_positions, lemma_wf_replicas, lemma_wf_standing, same_members,
};
use vstd::prelude::*;

verus! {

/// Filtering a list that has grown by one.
pub proof fn lemma_filter_push<A>(s: Seq<A>, x: A, pred: spec_fn(A) -> bool)
    ensures
        s.push(x).filter(pred) == if pred(x) {
            s.filter(pred).push(x)
        } else {
            s.filter(pred)
        },
{
    reveal(Seq::filter);
    assert(s.push(x).drop_last() =~= s);
}

/// All that has been put on the network is requests within the machine's reach.
pub open spec fn only_requests(before: Seq<MessageView>, after: Seq<MessageView>) -> bool {
    &&& before.len() <= after.len()
    &&& forall|k: int|
        0 <= k < before.len() ==> #[trigger] after[k] == before[k]
    &&& forall|k: int|
        before.len() <= k < after.len() ==> {
            &&& (#[trigger] after[k]).fits()
            &&& after[k].body is RequestVoteReq || after[k].body is AppendEntriesReq
        }
}

/// What the rules of server `si` leave as it is: the clock, the other servers,
/// and who the server is.
pub open spec fn untouched(before: Sim, after: Sim, si: int) -> bool {
    &&& after.model.time == before.model.time
    &&& after.model.servers.len() == before.model.servers.len()
    &&& forall|j: int|
        #![trigger after.model.servers[j]]
        0 <= j < before.model.servers.len() && j != si ==> after.model.servers[j]
            == before.model.servers[j]
    &&& after.server(si).id == before.server(si).id
    &&& after.server(si).peers == before.server(si).peers
}

/// Of the servers only `si` has moved, and only requests have been sent.
pub open spec fn only_moves(before: Sim, after: Sim, si: int) -> bool {
    &&& only_requests(before.model.messages, after.model.messages)
    &&& untouched(before, after, si)
}

/// Looking after peers moves only the server, and keeps it in order.
pub proof fn lemma_peers_contacted(w: Sim, si: int, n: nat)
    requires
        0 <= si < w.model.servers.len(),
        w.server(si).wf(),
        n <= w.server(si).peers.len(),
    ensures
        only_moves(w, w.peers_contacted(si, n), si),
        w.peers_contacted(si, n).server(si).wf(),
    decreases n,
{
    if n > 0 {
        lemma_peers_contacted(w, si, (n - 1) as nat);
        let v = w.peers_contacted(si, (n - 1) as nat);
        let peer = w.server(si).peers[n - 1];
        assert(v.server(si).peers.contains(peer));
        let v1 = v.send_request_vote(si, peer);
        assert(only_moves(v, v1, si));
        assert(v1.server(si).wf());
        assert(only_moves(v1, v1.send_append_entries(si, peer), si));
    }
}

/// The rules before the peers are looked after move only the server, and keep
/// it in order.
pub proof fn lemma_own_rules(w: Sim, si: int)
    requires
        0 <= si < w.model.servers.len(),
        w.server(si).wf(),
    ensures
        only_moves(w, w.start_new_election(si), si),
        w.start_new_election(si).server(si).wf(),
        only_moves(w, w.start_new_election(si).become_leader(si), si),
        w.start_new_election(si).become_leader(si).server(si).wf(),
        only_moves(w, w.start_new_election(si).become_leader(si).advance_commit_index(si), si),
        w.start_new_election(si).become_leader(si).advance_commit_index(si).server(si).wf(),
{
    lemma_wf_standing(w.server(si), crate::protocol::alarm(w.model.time, w.draw()));
}

/// The rules of one server move only that server, and keep it in order.
pub proof fn lemma_rules_applied(w: Sim, si: int)
    requires
        0 <= si < w.model.servers.len(),
        w.server(si).wf(),
    ensures
        only_moves(w, w.rules_applied(si), si),
        w.rules_applied(si).server(si).wf(),
{
    lemma_own_rules(w, si);
    lemma_peers_contacted(
        w.start_new_election(si).become_leader(si).advance_commit_index(si),
        si,
        w.server(si).peers.len(),
    );
}

/// A server that can look after its peers still can when it has begun to.
pub proof fn lemma_still_attentive(w: Sim, si: int, n: nat)
    requires
        0 <= si < w.model.servers.len(),
        w.server(si).attentive(w.model.time),
        n <= w.server(si).peers.len(),
    ensures
        untouched(w, w.peers_contacted(si, n), si),
        w.peers_contacted(si, n).server(si).attentive(w.model.time),
    decreases n,
{
    if n > 0 {
        lemma_still_attentive(w, si, (n - 1) as nat);
        let v = w.peers_contacted(si, (n - 1) as nat);
        let peer = w.server(si).peers[n - 1];
        assert(v.server(si).peers.contains(peer));
        let v1 = v.send_request_vote(si, peer);
        assert(v1.server(si).attentive(w.model.time)) by {
            assert forall|p: u32| #[trigger] v1.server(si).peers.contains(p) implies v1.server(
                si,
            ).can_ask(p) && v1.server(si).can_write(p, w.model.time) by {
                assert(v.server(si).peers.contains(p));
            }
        }
        let v2 = v1.send_append_entries(si, peer);
        assert(v2.server(si).attentive(w.model.time)) by {
            assert(v1.server(si).peers.contains(peer));
            assert forall|p: u32| #[trigger] v2.server(si).peers.contains(p) implies v2.server(
                si,
            ).can_ask(p) && v2.server(si).can_write(p, w.model.time) by {
                assert(v1.server(si).peers.contains(p));
            }
        }
    }
}

/// A server that has stood for election, if it is to, and leads, if it has won,
/// is prepared.
pub proof fn lemma_stands_prepared(w: Sim, si: int)
    requires
        0 <= si < w.model.servers.len(),
    ensures
        ({
            let s = w.start_new_election(si).become_leader(si).server(si);
            s == ServerView {
                election_alarm: s.election_alarm,
                ..w.server(si).prepared(w.model.time)
            }
        }),
{
    let s = w.server(si);
    let s1 = w.start_new_election(si).server(si);
    assert(s1 == ServerView {
        election_alarm: s1.election_alarm,
        ..s.stood_up(w.model.time)
    });
    assert(s1.granters() =~= s.stood_up(w.model.time).granters());
}

/// A server that is able to apply every rule is prepared for its peers when it
/// has applied its own.
pub proof fn lemma_prepared(w: Sim, si: int)
    requires
        0 <= si < w.model.servers.len(),
        w.server(si).able(w.model.time),
    ensures
        untouched(w, w.start_new_election(si), si),
        untouched(w, w.start_new_election(si).become_leader(si), si),
        untouched(w, w.start_new_election(si).become_leader(si).advance_commit_index(si), si),
        w.start_new_election(si).server(si).log == w.server(si).log,
        w.start_new_election(si).become_leader(si).server(si).match_index == w.server(si).prepared(
            w.model.time,
        ).match_index,
        w.start_new_election(si).become_leader(si).advance_commit_index(si).server(si).attentive(
            w.model.time,
        ),
{
    let p = w.server(si).prepared(w.model.time);
    lemma_stands_prepared(w, si);
    let s3 = w.start_new_election(si).become_leader(si).advance_commit_index(si).server(si);
    assert(s3 == ServerView {
        election_alarm: s3.election_alarm,
        commit_index: s3.commit_index,
        ..p
    });
    assert forall|q: u32| #[trigger] s3.peers.contains(q) implies s3.can_ask(q) && s3.can_write(
        q,
        w.model.time,
    ) by {
        assert(p.peers.contains(q));
    }
}

/// The rules of the first `n` servers leave the clock, the members and the
/// other servers as they are.
pub proof fn lemma_untouched(w: Sim, n: nat)
    requires
        n <= w.model.servers.len(),
    ensures
        w.all_rules_applied(n).model.time == w.model.time,
        same_members(w.model.servers, w.all_rules_applied(n).model.servers),
        forall|j: int|
            n <= j < w.model.servers.len() ==> w.all_rules_applied(n).model.servers[j]
                == #[trigger] w.model.servers[j],
    decreases n,
{
    if n > 0 {
        lemma_untouched(w, (n - 1) as nat);
        let v = w.all_rules_applied((n - 1) as nat);
        let v1 = v.start_new_election(n - 1).become_leader(n - 1).advance_commit_index(n - 1);
        assert(untouched(v, v1, n - 1));
        lemma_untouched_peers(v1, n - 1, v.server(n - 1).peers.len());
    }
}

/// Looking after peers moves only the server.
pub proof fn lemma_untouched_peers(w: Sim, si: int, n: nat)
    requires
        0 <= si < w.model.servers.len(),
    ensures
        untouched(w, w.peers_contacted(si, n), si),
    decreases n,
{
    if n > 0 {
        lemma_untouched_peers(w, si, (n - 1) as nat);
    }
}

/// What can be done with a message depends only on who the members are.
pub proof fn lemma_manageable(a: ModelView, b: ModelView, msg: MessageView)
    requires
        same_members(a.servers, b.servers),
    ensures
        a.manageable(msg) == b.manageable(msg),
{
    lemma_same_positions(a.servers, b.servers, msg.to);
    lemma_first_called(a.servers, msg.to);
}

/// The rules of the first `n` servers leave the others as they are and the
/// cluster in order.
pub proof fn lemma_all_rules_applied(w: Sim, n: nat)
    requires
        w.model.wf(),
        n <= w.model.servers.len(),
    ensures
        w.all_rules_applied(n).model.wf(),
        w.all_rules_applied(n).model.time == w.model.time,
        same_members(w.model.servers, w.all_rules_applied(n).model.servers),
        forall|j: int|
            n <= j < w.model.servers.len() ==> w.all_rules_applied(n).model.servers[j]
                == #[trigger] w.model.servers[j],
    decreases n,
{
    if n > 0 {
        lemma_all_rules_applied(w, (n - 1) as nat);
        let v = w.all_rules_applied((n - 1) as nat);
        lemma_rules_applied(v, n - 1);
        let v1 = v.rules_applied(n - 1);
        assert forall|k: int| 0 <= k < v1.model.messages.len() implies v1.model.manageable(
            #[trigger] v1.model.messages[k],
        ) by {
            lemma_manageable(v.model, v1.model, v1.model.messages[k]);
            if k < v.model.messages.len() {
                assert(v1.model.messages[k] == v.model.messages[k]);
            }
        }
    }
}

/// What is left of a list after filtering was in it.
pub proof fn lemma_filtered<A>(s: Seq<A>, pred: spec_fn(A) -> bool, i: int)
    requires
        0 <= i < s.filter(pred).len(),
    ensures
        s.contains(s.filter(pred)[i]),
        pred(s.filter(pred)[i]),
    decreases s.len(),
{
    reveal(Seq::filter);
    if s.len() > 0 {
        let t = s.drop_last();
        if i < t.filter(pred).len() {
            lemma_filtered(t, pred, i);
            let j = choose|j: int| 0 <= j < t.len() && t[j] == t.filter(pred)[i];
            assert(s[j] == t[j]);
        } else {
            assert(s.last() == s[s.len() - 1]);
        }
    }
}

/// Every server keeps an entry for each of its peers.
pub open spec fn all_keyed(servers: Seq<ServerView>) -> bool {
    forall|i: int| 0 <= i < servers.len() ==> (#[trigger] servers[i]).keyed()
}

/// A delivery leaves the clock and the members as they are.
pub proof fn lemma_delivered(w: Sim, msg: MessageView)
    requires
        all_keyed(w.model.servers),
    ensures
        w.delivered(msg).model.time == w.model.time,
        same_members(w.model.servers, w.delivered(msg).model.servers),
        all_keyed(w.delivered(msg).model.servers),
{
    lemma_first_called(w.model.servers, msg.to);
}

/// Deliveries leave the clock and the members as they are.
pub proof fn lemma_all_delivered(w: Sim, msgs: Seq<MessageView>)
    requires
        all_keyed(w.model.servers),
    ensures
        w.all_delivered(msgs).model.time == w.model.time,
        same_members(w.model.servers, w.all_delivered(msgs).model.servers),
        all_keyed(w.all_delivered(msgs).model.servers),
    decreases msgs.len(),
{
    if msgs.len() > 0 {
        lemma_all_delivered(w, msgs.drop_last());
        lemma_delivered(w.all_delivered(msgs.drop_last()), msgs.last());
    }
}

/// Deliveries leave the clock and the members as they are.
pub proof fn lemma_delivered_members(w: Sim, msgs: Seq<MessageView>)
    ensures
        w.all_delivered(msgs).model.time == w.model.time,
        same_members(w.model.servers, w.all_delivered(msgs).model.servers),
    decreases msgs.len(),
{
    if msgs.len() > 0 {
        lemma_delivered_members(w, msgs.drop_last());
        let v = w.all_delivered(msgs.drop_last());
        lemma_first_called(v.model.servers, msgs.last().to);
    }
}

/// Messages that can all be delivered can be delivered one by one.
pub proof fn lemma_can_deliver(w: Sim, msgs: Seq<MessageView>, k: int)
    requires
        w.can_deliver_all(msgs),
        0 <= k < msgs.len(),
    ensures
        w.all_delivered(msgs.take(k)).can_deliver(msgs[k]),
    decreases msgs.len(),
{
    if k < msgs.len() - 1 {
        lemma_can_deliver(w, msgs.drop_last(), k);
        assert(msgs.drop_last().take(k) =~= msgs.take(k));
    } else {
        assert(msgs.drop_last() =~= msgs.take(k));
    }
}

/// In a cluster that is in order a tick can be taken, whatever chance brings.
pub proof fn lemma_ready_can_update(w: Sim)
    requires
        w.model.ready(),
    ensures
        w.can_update(),
{
    assert forall|i: int| 0 <= i < w.model.servers.len() implies (
    #[trigger] w.model.servers[i]).able(w.model.time) by {
        let s = w.model.servers[i];
        lemma_wf_standing(s, 0);
        let p = s.prepared(w.model.time);
        assert(p.wf());
        lemma_wf_replicas(p);
        assert(p.attentive(w.model.time));
    }
    let n = w.model.servers.len();
    lemma_all_rules_applied(w, n);
    let v = w.all_rules_applied(n);
    let v1 = Sim { model: v.model.collected(), ..v };
    let msgs = v.model.arrived();
    assert forall|k: int| 0 <= k < msgs.len() implies v1.model.manageable(#[trigger] msgs[k]) by {
        lemma_filtered(v.model.messages, |m: MessageView| m.recv_time <= v.model.time, k);
        let j = choose|j: int| 0 <= j < v.model.messages.len() && v.model.messages[j] == msgs[k];
        assert(v.model.manageable(v.model.messages[j]));
    }
    lemma_manageable_can_be_delivered(v1, msgs);
}

proof fn lemma_manageable_can_be_delivered(w: Sim, msgs: Seq<MessageView>)
    requires
        all_keyed(w.model.servers),
        forall|k: int| 0 <= k < msgs.len() ==> w.model.manageable(#[trigger] msgs[k]),
    ensures
        w.can_deliver_all(msgs),
    decreases msgs.len(),
{
    if msgs.len() > 0 {
        let front = msgs.drop_last();
        let msg = msgs.last();
        assert forall|k: int| 0 <= k < front.len() implies w.model.manageable(
            #[trigger] front[k],
        ) by {
            assert(front[k] == msgs[k]);
        }
        lemma_manageable_can_be_delivered(w, front);
        lemma_all_delivered(w, front);
        let v = w.all_delivered(front);
        assert(msg == msgs[msgs.len() - 1]);
        lemma_manageable(w.model, v.model, msg);
        lemma_first_called(v.model.servers, msg.to);
        let si = v.model.position(msg.to);
        if si < v.model.servers.len() {
            assert(v.model.servers[si].keyed());
        }
    }
}

impl Model {
    /// Position of the server called `id`, if there is one.
    pub fn index_of(&self, id: u32) -> (r: Option<usize>)
        ensures
            match r {
                Some(i) => i == self@.position(id) && i < self.servers@.len(),
                None => self@.position(id) == self.servers@.len(),
            },
    {
        let ghost servers = self@.servers;
        let mut i: usize = 0;
        assert(servers.take(0) =~= Seq::empty());
        while i < self.servers.len()
            invariant
                servers == self@.servers,
                servers == server_views(self.servers@),
                i <= self.servers@.len(),
                first_called(servers.take(i as int), id) == i,
            decreases self.servers.len() - i,
        {
            assert(servers.take(i + 1).drop_last() =~= servers.take(i as int));
            if self.servers[i].id == id {
                proof {
                    lemma_found(servers, i as int, id);
                }
                return Some(i);
            }
            i += 1;
        }
        assert(servers.take(i as int) =~= servers);
        None
    }

    /// Applies every rule to server `si`.
    fn apply_rules(&mut self, si: usize, rng: &mut RandomSource)
        requires
            si < old(self).servers@.len(),
            old(self)@.servers[si as int].able(old(self).time),
        ensures
            final(self).sim(final(rng)) == old(self).sim(old(rng)).rules_applied(si as int),
            final(self).servers@.len() == old(self).servers@.len(),
    {
        let ghost w0 = self.sim(rng);
        let ghost i = si as int;
        proof {
            lemma_prepared(w0, i);
        }
        self.start_new_election(si, rng);
        assert(self@ == self.sim(rng).model);
        assert(self@.servers.len() == self.servers@.len());
        self.become_leader(si);
        assert(self@.servers.len() == self.servers@.len());
        self.advance_commit_index(si);
        assert(self@.servers.len() == self.servers@.len());
        let ghost w = self.sim(rng);
        let peers = self.servers[si].peers.clone();
        assert(peers@ =~= w.server(i).peers);
        let mut n: usize = 0;
        while n < peers.len()
            invariant
                n <= peers@.len(),
                i == si,
                si < w.model.servers.len(),
                peers@ == w.server(i).peers,
                w.server(i).attentive(w.model.time),
                self.sim(rng) == w.peers_contacted(i, n as nat),
            decreases peers.len() - n,
        {
            proof {
                lemma_still_attentive(w, i, n as nat);
                assert(self@ == self.sim(rng).model);
                assert(self@.servers.len() == self.servers@.len());
                assert(self@.servers[i].peers.contains(peers@[n as int]));
            }
            let peer: u32 = peers[n];
            self.send_request_vote(si, peer, rng);
            proof {
                assert(self@ == self.sim(rng).model);
                assert(self@.servers.len() == self.servers@.len());
            }
            self.send_append_entries(si, peer, rng);
            n += 1;
        }
        proof {
            lemma_still_attentive(w, i, n as nat);
            assert(self@ == self.sim(rng).model);
            assert(self@.servers.len() == self.servers@.len());
        }
    }

    /// Applies every rule to every server.
    pub(crate) fn apply_all_rules(&mut self, rng: &mut RandomSource)
        requires
            forall|i: int|
                0 <= i < old(self)@.servers.len() ==> (#[trigger] old(self)@.servers[i]).able(
                    old(self).time,
                ),
        ensures
            final(self).sim(final(rng)) == old(self).sim(old(rng)).all_rules_applied(
                old(self)@.servers.len(),
            ),
    {
        let ghost w0 = self.sim(rng);
        assert(w0.model == self@);
        let n: usize = self.servers.len();
        let mut si: usize = 0;
        while si < n
            invariant
                si <= n,
                n == w0.model.servers.len(),
                forall|i: int|
                    0 <= i < w0.model.servers.len() ==> (#[trigger] w0.model.servers[i]).able(
                        w0.model.time,
                    ),
                self.sim(rng) == w0.all_rules_applied(si as nat),
            decreases n - si,
        {
            proof {
                lemma_untouched(w0, si as nat);
                assert(self@ == self.sim(rng).model);
                assert(self@.servers.len() == self.servers@.len());
                assert(self@.servers[si as int] == w0.model.servers[si as int]);
            }
            self.apply_rules(si, rng);
            si += 1;
        }
    }

    /// Takes the messages that have arrived off the network, and those that
    /// will never arrive.
    pub(crate) fn collect(&mut self) -> (arrived: Vec<Message>)
        ensures
            final(self)@ == old(self)@.collected(),
            final(self).servers == old(self).servers,
            message_views(arrived@) == old(self)@.arrived(),
    {
        let ghost now = self.time;
        let ghost here = |m: MessageView| m.recv_time <= now;
        let ghost away = |m: MessageView| now < m.recv_time < INF;
        let mut all: Vec<Message> = Vec::new();
        std::mem::swap(&mut all, &mut self.messages);
        let mut arrived: Vec<Message> = Vec::new();
        let mut kept: Vec<Message> = Vec::new();
        let ghost views = message_views(all@);
        for m in it: all
            invariant
                now == self.time,
                views == message_views(it.seq()),
                here == (|m: MessageView| m.recv_time <= now),
                away == (|m: MessageView| now < m.recv_time < INF),
                message_views(arrived@) == views.take(it.index() as int).filter(here),
                message_views(kept@) == views.take(it.index() as int).filter(away),
        {
            let ghost i = it.index() as int;
            let ghost (arrived0, kept0) = (message_views(arrived@), message_views(kept@));
            let ghost mv = m@;
            proof {
                assert(mv == views[i]);
                assert(views.take(i + 1) =~= views.take(i).push(mv));
                lemma_filter_push(views.take(i), mv, here);
                lemma_filter_push(views.take(i), mv, away);
            }
            if m.recv_time <= self.time {
                arrived.push(m);
                assert(message_views(arrived@) =~= arrived0.push(mv));
            } else if m.recv_time < INF {
                kept.push(m);
                assert(message_views(kept@) =~= kept0.push(mv));
            }
        }
        assert(views.take(views.len() as int) =~= views);
        self.messages = kept;
        arrived
    }

    /// One simulation tick: apply every rule to every server, then deliver any
    /// messages whose `recv_time` has arrived.
    pub fn update(&mut self, rng: &mut RandomSource)
        requires
            old(self).sim(old(rng)).can_update(),
        ensures
            final(self).sim(final(rng)) == old(self).sim(old(rng)).updated(),
    {
        assert(self.sim(rng).model == self@);
        self.apply_all_rules(rng);
        let ghost w1 = self.sim(rng);
        proof {
            assert(self@ == w1.model);
        }
        let arrived = self.collect();
        let ghost w2 = self.sim(rng);
        let ghost msgs = message_views(arrived@);
        assert(w2 =~= Sim { model: w1.model.collected(), ..w1 });
        assert(msgs.take(0) =~= Seq::empty());
        let mut k: usize = 0;
        while k < arrived.len()
            invariant
                k <= arrived@.len(),
                msgs == message_views(arrived@),
                w2.can_deliver_all(msgs),
                self.sim(rng) == w2.all_delivered(msgs.take(k as int)),
            decreases arrived.len() - k,
        {
            let m = &arrived[k];
            let ghost w = self.sim(rng);
            proof {
                assert(m@ == msgs[k as int]);
                lemma_can_deliver(w2, msgs, k as int);
                assert(self@ == w.model);
                assert(self@.servers.len() == self.servers@.len());
                lemma_first_called(self@.servers, m.to);
                assert(msgs.take(k + 1).drop_last() =~= msgs.take(k as int));
            }
            match self.index_of(m.to) {
                Some(to) => {
                    self.handle_message(to, m, rng);
                },
                None => {},
            }
            k += 1;
        }
        assert(msgs.take(k as int) =~= msgs);
    }
}

/// A server at the first place where its name is found is at the name's position.
proof fn lemma_found(servers: Seq<ServerView>, i: int, id: u32)
    requires
        0 <= i < servers.len(),
        first_called(servers.take(i), id) == i,
        servers[i].id == id,
    ensures
        first_called(servers, id) == i,
    decreases servers.len(),
{
    if i == servers.len() - 1 {
        assert(servers.take(i) =~= servers.drop_last());
    } else {
        assert(servers.drop_last().take(i) =~= servers.take(i));
        lemma_found(servers.drop_last(), i, id);
    }
}

} // verus!
