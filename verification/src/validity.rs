//! What a cluster must be like for a tick to be taken.

use crate::protocol::{
    first_called, for_all_peers, BodyView, MessageView, ModelView, ServerView, Sim,
};
use crate::raft::{ServerState, NUM_SERVERS};
use vstd::prelude::*;

verus! {

impl ServerView {
    /// The server keeps an entry for each of its peers.
    pub open spec fn keyed(self) -> bool {
        forall|p: u32| #[trigger]
            self.peers.contains(p) ==> {
                &&& self.vote_granted.contains_key(p)
                &&& self.match_index.contains_key(p)
                &&& self.next_index.contains_key(p)
                &&& self.rpc_due.contains_key(p)
                &&& self.heartbeat_due.contains_key(p)
            }
    }

    /// What the server keeps of its peers' logs fits its own.
    pub open spec fn in_step(self) -> bool {
        forall|p: u32| #[trigger]
            self.peers.contains(p) ==> {
                &&& self.next_index[p] >= 1
                &&& self.match_index[p] < usize::MAX
                &&& self.state == ServerState::Leader ==> self.next_index[p] <= self.log.len() + 1
            }
    }

    /// The server is in order: it can apply every rule.
    pub open spec fn wf(self) -> bool {
        &&& self.peers.to_set().len() >= NUM_SERVERS / 2
        &&& self.vote_granted.dom().finite()
        &&& self.match_index.dom().finite()
        &&& self.keyed()
        &&& self.in_step()
        &&& self.log.len() < usize::MAX
    }

    /// Nothing bars the server from standing for election when its timer runs
    /// out: there is a next term.
    pub open spec fn can_stand(self, now: u64) -> bool {
        self.times_out(now) ==> self.term < u64::MAX
    }
}

impl ServerView {
    /// The server after it has stood for election, if it is to, but for its
    /// timer.
    pub open spec fn stood_up(self, now: u64) -> ServerView {
        if self.times_out(now) {
            self.standing(0)
        } else {
            self
        }
    }

    /// The server when it comes to look after its peers, but for its timer and
    /// what it commits.
    pub open spec fn prepared(self, now: u64) -> ServerView {
        let s = self.stood_up(now);
        if s.wins() {
            s.leading()
        } else {
            s
        }
    }

    /// The server can look after its peers.
    pub open spec fn attentive(self, now: u64) -> bool {
        forall|p: u32| #[trigger]
            self.peers.contains(p) ==> self.can_ask(p) && self.can_write(p, now)
    }

    /// The server can apply every rule.
    pub open spec fn able(self, now: u64) -> bool {
        &&& self.can_stand(now)
        &&& self.log.len() < usize::MAX
        &&& self.prepared(now).match_index.dom().finite()
        &&& self.prepared(now).match_index.dom().len() >= NUM_SERVERS / 2
        &&& self.prepared(now).attentive(now)
    }
}

impl Sim {
    /// `msg` can be delivered.
    pub open spec fn can_deliver(self, msg: MessageView) -> bool {
        let si = self.model.position(msg.to);
        si < self.model.servers.len() ==> self.server(si).can_handle(msg)
    }

    /// All of `msgs` can be delivered, in their order.
    pub open spec fn can_deliver_all(self, msgs: Seq<MessageView>) -> bool
        decreases msgs.len(),
    {
        msgs.len() == 0 || (self.can_deliver_all(msgs.drop_last()) && self.all_delivered(
            msgs.drop_last(),
        ).can_deliver(msgs.last()))
    }

    /// A tick can be taken: every server can apply its rules, and then every
    /// message that has arrived can be delivered.
    pub open spec fn can_update(self) -> bool {
        let w = self.all_rules_applied(self.model.servers.len());
        &&& forall|i: int|
            0 <= i < self.model.servers.len() ==> (#[trigger] self.model.servers[i]).able(
                self.model.time,
            )
        &&& Sim { model: w.model.collected(), ..w }.can_deliver_all(w.model.arrived())
    }
}

impl ModelView {
    /// The message can be handled: its indexes are within the machine's reach,
    /// and a follower's answer comes from a peer of the server that it is for.
    pub open spec fn manageable(self, msg: MessageView) -> bool {
        &&& msg.fits()
        &&& match msg.body {
            BodyView::AppendEntriesRep { success, match_index } => {
                let to = self.position(msg.to);
                to < self.servers.len() ==> {
                    &&& self.servers[to].peers.contains(msg.from)
                    &&& success ==> match_index < usize::MAX
                }
            },
            _ => true,
        }
    }

    /// The cluster is in order.
    pub open spec fn wf(self) -> bool {
        &&& forall|i: int| 0 <= i < self.servers.len() ==> (#[trigger] self.servers[i]).wf()
        &&& forall|k: int|
            0 <= k < self.messages.len() ==> self.manageable(#[trigger] self.messages[k])
    }

    /// The cluster is in order, and no server has run out of terms: a tick can
    /// be taken, whatever chance brings.
    pub open spec fn ready(self) -> bool {
        &&& self.wf()
        &&& forall|i: int|
            0 <= i < self.servers.len() ==> (#[trigger] self.servers[i]).can_stand(self.time)
    }
}

impl ModelView {
    /// The log-replication scenario can be set up: there are servers enough,
    /// and terms and log entries left for the first one.
    pub open spec fn can_be_set_up(self) -> bool {
        &&& self.servers.len() >= NUM_SERVERS
        &&& self.servers[0].term < u64::MAX
        &&& self.time == u64::MAX ==> self.servers[0].term < u64::MAX - 1
        &&& self.servers[0].log.len() < usize::MAX
    }
}

/// `b` lists the same servers as `a`, by name and by whom they know.
pub open spec fn same_members(a: Seq<ServerView>, b: Seq<ServerView>) -> bool {
    &&& a.len() == b.len()
    &&& forall|i: int|
        0 <= i < a.len() ==> (#[trigger] b[i]).id == a[i].id && b[i].peers == a[i].peers
}

/// Servers keep their positions as long as they keep their names.
pub proof fn lemma_same_positions(a: Seq<ServerView>, b: Seq<ServerView>, id: u32)
    requires
        same_members(a, b),
    ensures
        first_called(a, id) == first_called(b, id),
    decreases a.len(),
{
    if a.len() > 0 {
        assert(same_members(a.drop_last(), b.drop_last()));
        lemma_same_positions(a.drop_last(), b.drop_last(), id);
        assert(b.last() == b[b.len() - 1]);
    }
}

/// The position of a name is the first place where it is found.
pub proof fn lemma_first_called(servers: Seq<ServerView>, id: u32)
    ensures
        0 <= first_called(servers, id) <= servers.len(),
        first_called(servers, id) < servers.len() ==> servers[first_called(servers, id)].id == id,
        forall|i: int|
            0 <= i < first_called(servers, id) ==> (#[trigger] servers[i]).id != id,
    decreases servers.len(),
{
    if servers.len() > 0 {
        lemma_first_called(servers.drop_last(), id);
        assert forall|i: int| 0 <= i < first_called(servers, id) implies (
        #[trigger] servers[i]).id != id by {
            if i < servers.len() - 1 {
                assert(servers.drop_last()[i] == servers[i]);
            }
        }
        let p = first_called(servers.drop_last(), id);
        if p < servers.len() - 1 {
            assert(servers.drop_last()[p] == servers[p]);
        }
    }
}

/// A map with an entry for each of the peers has as many as there are peers.
pub proof fn lemma_for_all_peers<T>(peers: Seq<u32>, value: T)
    ensures
        for_all_peers(peers, value).dom() == peers.to_set(),
        for_all_peers(peers, value).dom().finite(),
{
    vstd::seq_lib::seq_to_set_is_finite(peers);
    assert(for_all_peers(peers, value).dom() =~= peers.to_set());
}

/// A server in order has enough replicas to find what is agreed upon.
pub proof fn lemma_wf_replicas(s: ServerView)
    requires
        s.wf(),
    ensures
        s.match_index.dom().len() >= NUM_SERVERS / 2,
{
    assert forall|p: u32| #[trigger] s.peers.to_set().contains(p) implies s.match_index.dom().contains(
        p,
    ) by {
        assert(s.peers.contains(p));
    }
    vstd::set_lib::lemma_len_subset(s.peers.to_set(), s.match_index.dom());
}

/// A server in order stays in order when it stands for election.
pub proof fn lemma_wf_standing(s: ServerView, alarm: u64)
    requires
        s.wf(),
    ensures
        s.standing(alarm).wf(),
{
    lemma_for_all_peers(s.peers, false);
    lemma_for_all_peers(s.peers, 0usize);
}

} // verus!
