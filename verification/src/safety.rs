//! What every rule, message and user action keeps: votes are not given twice,
//! no request or answer outlives the log that it speaks of, and so no term
//! ever has two leaders.

use crate::protocol::{
    alarm, merged, BodyView, EntryView, MessageView, ModelView, ServerView, Sim,
};
use crate::raft::{ServerState, NUM_SERVERS};
use crate::validity::lemma_wf_standing;
use vstd::prelude::*;

verus! {

/// Who has voted for whom: the candidate that a voter chose in a term.
pub type Ballots = Map<(u32, u64), u32>;

impl ServerView {
    /// The ballots show the server's vote in its term, and none in a later one.
    pub open spec fn vote_shown(self, b: Ballots) -> bool {
        &&& match self.voted_for {
            Some(c) => b.contains_key((self.id, self.term)) && b[(self.id, self.term)] == c,
            None => !b.contains_key((self.id, self.term)),
        }
        &&& forall|t: u64| t > self.term ==> !#[trigger] b.contains_key((self.id, t))
    }

    /// A server that stands for election or leads has its own vote and, as the
    /// ballots show, that of every peer it counts; a leader has a majority.
    pub open spec fn votes_counted(self, b: Ballots) -> bool {
        self.state == ServerState::Candidate || self.state == ServerState::Leader ==> {
            &&& self.voted_for == Some(self.id)
            &&& forall|p: u32| #[trigger]
                self.granters().contains(p) ==> {
                    &&& self.peers.contains(p)
                    &&& b.contains_key((p, self.term))
                    &&& b[(p, self.term)] == self.id
                }
            &&& self.state == ServerState::Leader ==> self.granters().len() + 1 > NUM_SERVERS / 2
        }
    }

    /// The server is in order, and so are the votes that it gave and counts.
    pub open spec fn sound(self, b: Ballots) -> bool {
        &&& self.wf()
        &&& !self.peers.contains(self.id)
        &&& self.vote_shown(b)
        &&& self.votes_counted(b)
    }

    /// The server is of the term `term` or past it; if it still leads in that
    /// term, its log reaches up to `index`.
    pub open spec fn vouches(self, term: u64, index: int) -> bool {
        &&& term <= self.term
        &&& term == self.term ==> self.state != ServerState::Candidate && (self.state
            == ServerState::Leader ==> index <= self.log.len())
    }

    /// The server may have sent `msg`.
    pub open spec fn sent(self, msg: MessageView) -> bool {
        &&& self.peers.contains(msg.to)
        &&& match msg.body {
            BodyView::AppendEntriesReq { prev_index, entries, .. } => self.vouches(
                msg.term,
                prev_index + entries.len(),
            ),
            _ => true,
        }
    }

    /// The server may receive `msg`.
    pub open spec fn expects(self, msg: MessageView) -> bool {
        &&& self.peers.contains(msg.from)
        &&& match msg.body {
            BodyView::AppendEntriesRep { success, match_index } => success ==> self.vouches(
                msg.term,
                match_index as int,
            ),
            _ => true,
        }
    }
}

impl ModelView {
    /// Every server has a name of its own, knows only members, and is known to
    /// those it knows.
    pub open spec fn acquainted(self) -> bool {
        &&& forall|i: int, j: int|
            #![trigger self.servers[i], self.servers[j]]
            0 <= i < j < self.servers.len() ==> self.servers[i].id != self.servers[j].id
        &&& forall|i: int, p: u32|
            #![trigger self.servers[i].peers.contains(p)]
            0 <= i < self.servers.len() && self.servers[i].peers.contains(p) ==> exists|j: int|
                0 <= j < self.servers.len() && (#[trigger] self.servers[j]).id == p
        &&& forall|i: int, j: int|
            #![trigger self.servers[i], self.servers[j]]
            0 <= i < self.servers.len() && 0 <= j < self.servers.len()
                && self.servers[i].peers.contains(self.servers[j].id)
                ==> self.servers[j].peers.contains(self.servers[i].id)
    }

    /// `msg` is one that the protocol can have brought about.
    pub open spec fn proper(self, b: Ballots, msg: MessageView) -> bool {
        &&& msg.fits()
        &&& match msg.body {
            BodyView::RequestVoteRep { granted } => granted ==> b.contains_key(
                (msg.from, msg.term),
            ) && b[(msg.from, msg.term)] == msg.to,
            BodyView::AppendEntriesRep { success, match_index } => success ==> match_index
                < usize::MAX,
            _ => true,
        }
        &&& forall|i: int|
            #![trigger self.servers[i]]
            0 <= i < self.servers.len() ==> {
                &&& self.servers[i].id == msg.from ==> self.servers[i].sent(msg)
                &&& self.servers[i].id == msg.to ==> self.servers[i].expects(msg)
            }
    }

    /// All is as the protocol wants it, given the ballots, on the network and
    /// among the messages that are `pending`.
    pub open spec fn regular(self, b: Ballots, pending: Seq<MessageView>) -> bool {
        &&& self.acquainted()
        &&& forall|i: int| 0 <= i < self.servers.len() ==> (#[trigger] self.servers[i]).sound(b)
        &&& forall|k: int|
            0 <= k < self.messages.len() ==> self.proper(b, #[trigger] self.messages[k])
        &&& forall|k: int| 0 <= k < pending.len() ==> self.proper(b, #[trigger] pending[k])
    }

    /// All is as the protocol wants it.
    pub open spec fn lawful(self) -> bool {
        exists|b: Ballots| #[trigger] self.regular(b, Seq::empty())
    }
}

/// `b1` has the ballots of `b0`, and besides them only ones that `voter` cast.
pub open spec fn extends(b0: Ballots, b1: Ballots, voter: u32) -> bool {
    &&& forall|k: (u32, u64)| #[trigger] b0.contains_key(k) ==> b1.contains_key(k) && b1[k] == b0[k]
    &&& forall|k: (u32, u64)| #[trigger]
        b1.contains_key(k) && !b0.contains_key(k) ==> k.0 == voter
}

/// What a server may become in one move.
pub open spec fn may_become(s: ServerView, t: ServerView) -> bool {
    &&& t.id == s.id
    &&& t.peers == s.peers
    &&& t.term >= s.term
    &&& t.term == s.term ==> {
        &&& t.state == ServerState::Candidate ==> s.state == ServerState::Candidate
        &&& t.state == ServerState::Leader ==> s.state == ServerState::Candidate || (s.state
            == ServerState::Leader && t.log.len() >= s.log.len())
    }
}

/// With server `si` moved and messages sent.
pub open spec fn moved(m: ModelView, si: int, t: ServerView, msgs: Seq<MessageView>) -> ModelView {
    ModelView { messages: m.messages + msgs, ..m.with(si, t) }
}

/// A message that was proper stays so when a server moves.
proof fn lemma_proper_kept(
    m: ModelView,
    b0: Ballots,
    b1: Ballots,
    si: int,
    t: ServerView,
    msgs: Seq<MessageView>,
    msg: MessageView,
)
    requires
        0 <= si < m.servers.len(),
        m.proper(b0, msg),
        extends(b0, b1, m.servers[si].id),
        may_become(m.servers[si], t),
    ensures
        moved(m, si, t, msgs).proper(b1, msg),
{
    let n = moved(m, si, t, msgs);
    assert forall|i: int|
        #![trigger n.servers[i]]
        0 <= i < n.servers.len() implies {
        &&& n.servers[i].id == msg.from ==> n.servers[i].sent(msg)
        &&& n.servers[i].id == msg.to ==> n.servers[i].expects(msg)
    } by {
        assert(m.servers[i].id == n.servers[i].id);
    }
}

/// A move of one server, with the messages that it sends, keeps all regular if
/// the server stays sound, goes only where it may, and the messages are proper.
pub proof fn lemma_move(
    m: ModelView,
    b0: Ballots,
    b1: Ballots,
    pending: Seq<MessageView>,
    si: int,
    t: ServerView,
    msgs: Seq<MessageView>,
)
    requires
        0 <= si < m.servers.len(),
        m.regular(b0, pending),
        extends(b0, b1, m.servers[si].id),
        may_become(m.servers[si], t),
        t.sound(b1),
        forall|k: int|
            0 <= k < msgs.len() ==> moved(m, si, t, msgs).proper(b1, #[trigger] msgs[k]),
    ensures
        moved(m, si, t, msgs).regular(b1, pending),
{
    let n = moved(m, si, t, msgs);
    assert forall|k: int| 0 <= k < n.messages.len() implies n.proper(
        b1,
        #[trigger] n.messages[k],
    ) by {
        if k < m.messages.len() {
            assert(n.messages[k] == m.messages[k]);
            lemma_proper_kept(m, b0, b1, si, t, msgs, m.messages[k]);
        } else {
            assert(n.messages[k] == msgs[k - m.messages.len()]);
        }
    }
    assert forall|k: int| 0 <= k < pending.len() implies n.proper(b1, #[trigger] pending[k]) by {
        lemma_proper_kept(m, b0, b1, si, t, msgs, pending[k]);
    }
    assert forall|i: int| 0 <= i < n.servers.len() implies (#[trigger] n.servers[i]).sound(b1) by {
        if i != si {
            let s = m.servers[i];
            assert(n.servers[i] == s);
            assert(s.sound(b0));
            assert(s.id != m.servers[si].id);
            assert forall|p: u32| #[trigger] s.granters().contains(p) && (s.state
                == ServerState::Candidate || s.state == ServerState::Leader) implies {
                &&& s.peers.contains(p)
                &&& b1.contains_key((p, s.term))
                &&& b1[(p, s.term)] == s.id
            } by {
                assert(b0.contains_key((p, s.term)));
            }
            assert(!b0.contains_key((s.id, s.term)) ==> !b1.contains_key((s.id, s.term)));
            assert forall|u: u64| u > s.term implies !#[trigger] b1.contains_key((s.id, u)) by {
                assert(!b0.contains_key((s.id, u)));
            }
        }
    }
    assert(n.acquainted()) by {
        assert(forall|i: int|
            0 <= i < m.servers.len() ==> (#[trigger] n.servers[i]).id == m.servers[i].id
                && n.servers[i].peers == m.servers[i].peers);
        assert forall|i: int, p: u32|
            #![trigger n.servers[i].peers.contains(p)]
            0 <= i < n.servers.len() && n.servers[i].peers.contains(p) implies exists|j: int|
            0 <= j < n.servers.len() && (#[trigger] n.servers[j]).id == p by {
            assert(m.servers[i].peers.contains(p));
            let j = choose|j: int| 0 <= j < m.servers.len() && (#[trigger] m.servers[j]).id == p;
            assert(n.servers[j].id == p);
        }
    }
}

/// A move without messages.
pub proof fn lemma_quiet_move(
    m: ModelView,
    b0: Ballots,
    b1: Ballots,
    pending: Seq<MessageView>,
    si: int,
    t: ServerView,
)
    requires
        0 <= si < m.servers.len(),
        m.regular(b0, pending),
        extends(b0, b1, m.servers[si].id),
        may_become(m.servers[si], t),
        t.sound(b1),
    ensures
        m.with(si, t).regular(b1, pending),
{
    lemma_move(m, b0, b1, pending, si, t, Seq::empty());
    assert(moved(m, si, t, Seq::empty()) =~= m.with(si, t));
}

/// A move with one message.
proof fn lemma_sending_move(
    m: ModelView,
    b0: Ballots,
    b1: Ballots,
    pending: Seq<MessageView>,
    si: int,
    t: ServerView,
    msg: MessageView,
)
    requires
        0 <= si < m.servers.len(),
        m.regular(b0, pending),
        extends(b0, b1, m.servers[si].id),
        may_become(m.servers[si], t),
        t.sound(b1),
        moved(m, si, t, seq![msg]).proper(b1, msg),
    ensures
        (ModelView { messages: m.messages.push(msg), ..m.with(si, t) }).regular(b1, pending),
{
    lemma_move(m, b0, b1, pending, si, t, seq![msg]);
    assert(moved(m, si, t, seq![msg]) =~= ModelView {
        messages: m.messages.push(msg),
        ..m.with(si, t)
    });
}

// ----- rules -----

pub proof fn lemma_start_new_election(
    w: Sim,
    si: int,
    b: Ballots,
    pending: Seq<MessageView>,
) -> (b1: Ballots)
    requires
        0 <= si < w.model.servers.len(),
        w.model.regular(b, pending),
        w.server(si).can_stand(w.model.time),
    ensures
        w.start_new_election(si).model.regular(b1, pending),
        b1 == if w.server(si).times_out(w.model.time) {
            b.insert((w.server(si).id, (w.server(si).term + 1) as u64), w.server(si).id)
        } else {
            b
        },
{
    let s = w.server(si);
    if s.times_out(w.model.time) {
        let t = s.standing(alarm(w.model.time, w.draw()));
        let b1 = b.insert((s.id, t.term), s.id);
        lemma_wf_standing(s, alarm(w.model.time, w.draw()));
        assert(t.granters() =~= Set::empty());
        assert(s.sound(b));
        assert(!b.contains_key((s.id, t.term)));
        assert(t.sound(b1));
        lemma_quiet_move(w.model, b, b1, pending, si, t);
        b1
    } else {
        b
    }
}

pub proof fn lemma_become_leader(m: ModelView, si: int, b: Ballots, pending: Seq<MessageView>)
    requires
        0 <= si < m.servers.len(),
        m.regular(b, pending),
    ensures
        m.become_leader(si).regular(b, pending),
{
    let s = m.servers[si];
    if s.wins() {
        let t = s.leading();
        assert(s.sound(b));
        assert(t.granters() =~= s.granters());
        assert(t.sound(b));
        lemma_quiet_move(m, b, b, pending, si, t);
    }
}

pub proof fn lemma_advance_commit_index(m: ModelView, si: int, b: Ballots, pending: Seq<MessageView>)
    requires
        0 <= si < m.servers.len(),
        m.regular(b, pending),
    ensures
        m.advance_commit_index(si).regular(b, pending),
{
    let s = m.servers[si];
    let t = s.committing();
    assert(s.sound(b));
    assert(t.granters() =~= s.granters());
    lemma_quiet_move(m, b, b, pending, si, t);
}

pub proof fn lemma_send_request_vote(
    w: Sim,
    si: int,
    peer: u32,
    b: Ballots,
    pending: Seq<MessageView>,
)
    requires
        0 <= si < w.model.servers.len(),
        w.model.regular(b, pending),
        w.server(si).peers.contains(peer),
    ensures
        w.send_request_vote(si, peer).model.regular(b, pending),
{
    let s = w.server(si);
    if s.asks(peer, w.model.time) {
        let n = w.send_request_vote(si, peer).model;
        let t = n.servers[si];
        assert(s.sound(b));
        assert(t.granters() =~= s.granters());
        assert(t.sound(b));
        lemma_sending_move(w.model, b, b, pending, si, t, n.messages.last());
        assert(n =~= ModelView {
            messages: w.model.messages.push(n.messages.last()),
            ..w.model.with(si, t)
        });
    }
}

pub proof fn lemma_send_append_entries(
    w: Sim,
    si: int,
    peer: u32,
    b: Ballots,
    pending: Seq<MessageView>,
)
    requires
        0 <= si < w.model.servers.len(),
        w.model.regular(b, pending),
        w.server(si).peers.contains(peer),
    ensures
        w.send_append_entries(si, peer).model.regular(b, pending),
{
    let s = w.server(si);
    if s.writes(peer, w.model.time) {
        let n = w.send_append_entries(si, peer).model;
        let t = n.servers[si];
        assert(s.sound(b));
        assert(t.granters() =~= s.granters());
        assert(t.sound(b));
        lemma_sending_move(w.model, b, b, pending, si, t, n.messages.last());
        assert(n =~= ModelView {
            messages: w.model.messages.push(n.messages.last()),
            ..w.model.with(si, t)
        });
    }
}

// ----- message handlers -----

pub proof fn lemma_catch_up(w: Sim, si: int, term: u64, b: Ballots, pending: Seq<MessageView>)
    requires
        0 <= si < w.model.servers.len(),
        w.model.regular(b, pending),
    ensures
        w.catch_up(si, term).model.regular(b, pending),
        w.catch_up(si, term).model.servers.len() == w.model.servers.len(),
        w.catch_up(si, term).server(si).id == w.server(si).id,
        w.catch_up(si, term).server(si).term >= term,
{
    let s = w.server(si);
    if s.term < term {
        let t = w.step_down(si, term).server(si);
        assert(s.sound(b));
        assert(t.sound(b));
        lemma_quiet_move(w.model, b, b, pending, si, t);
    }
}

pub proof fn lemma_handle_request_vote_request(
    w0: Sim,
    si: int,
    msg: MessageView,
    b: Ballots,
    pending: Seq<MessageView>,
) -> (b1: Ballots)
    requires
        0 <= si < w0.model.servers.len(),
        w0.model.regular(b, pending),
        pending.contains(msg),
        w0.server(si).id == msg.to,
        msg.body is RequestVoteReq,
    ensures
        w0.handle_request_vote_request(si, msg).model.regular(b1, pending),
        ({
            let t = w0.handle_request_vote_request(si, msg).server(si);
            b1 == if t.voted_for is Some {
                b.insert((t.id, t.term), t.voted_for->0)
            } else {
                b
            }
        }),
{
    lemma_catch_up(w0, si, msg.term, b, pending);
    let w = w0.catch_up(si, msg.term);
    let s = w.server(si);
    let n = w0.handle_request_vote_request(si, msg).model;
    let t = n.servers[si];
    let reply = n.messages.last();
    assert(w.model.proper(b, msg));
    assert(s.sound(b));
    assert(t.granters() =~= s.granters());
    let b1 = if t.voted_for is Some {
        b.insert((s.id, s.term), t.voted_for->0)
    } else {
        b
    };
    assert(t.sound(b1));
    assert(moved(w.model, si, t, seq![reply]).proper(b1, reply)) by {
        let v = moved(w.model, si, t, seq![reply]);
        assert forall|i: int|
            #![trigger v.servers[i]]
            0 <= i < v.servers.len() implies {
            &&& v.servers[i].id == reply.from ==> v.servers[i].sent(reply)
            &&& v.servers[i].id == reply.to ==> v.servers[i].expects(reply)
        } by {
            assert(w.model.servers[i].id == v.servers[i].id);
        }
    }
    lemma_sending_move(w.model, b, b1, pending, si, t, reply);
    assert(n =~= ModelView { messages: w.model.messages.push(reply), ..w.model.with(si, t) });
    b1
}

pub proof fn lemma_handle_request_vote_reply(
    w0: Sim,
    si: int,
    msg: MessageView,
    b: Ballots,
    pending: Seq<MessageView>,
)
    requires
        0 <= si < w0.model.servers.len(),
        w0.model.regular(b, pending),
        pending.contains(msg),
        w0.server(si).id == msg.to,
        msg.body is RequestVoteRep,
    ensures
        w0.handle_request_vote_reply(si, msg).model.regular(b, pending),
{
    lemma_catch_up(w0, si, msg.term, b, pending);
    let w = w0.catch_up(si, msg.term);
    let s = w.server(si);
    assert(w.model.proper(b, msg));
    assert(s.sound(b));
    if s.state == ServerState::Candidate && s.term == msg.term {
        let t = w0.handle_request_vote_reply(si, msg).server(si);
        assert forall|p: u32| #[trigger] t.granters().contains(p) implies {
            &&& t.peers.contains(p)
            &&& b.contains_key((p, t.term))
            &&& b[(p, t.term)] == t.id
        } by {
            if p != msg.from {
                assert(s.granters().contains(p));
            }
        }
        assert(t.sound(b));
        lemma_quiet_move(w.model, b, b, pending, si, t);
    }
}

pub proof fn lemma_handle_append_entries_request(
    w0: Sim,
    si: int,
    msg: MessageView,
    b: Ballots,
    pending: Seq<MessageView>,
)
    requires
        0 <= si < w0.model.servers.len(),
        w0.model.regular(b, pending),
        pending.contains(msg),
        w0.server(si).id == msg.to,
        msg.body is AppendEntriesReq,
    ensures
        w0.handle_append_entries_request(si, msg).model.regular(b, pending),
{
    lemma_catch_up(w0, si, msg.term, b, pending);
    let w = w0.catch_up(si, msg.term);
    let s = w.server(si);
    let n = w0.handle_append_entries_request(si, msg).model;
    let t = n.servers[si];
    let reply = n.messages.last();
    assert(w.model.proper(b, msg));
    assert(s.sound(b));
    assert(t.granters() =~= s.granters());
    if let BodyView::AppendEntriesReq { prev_index, entries, .. } = msg.body {
        lemma_merged_len(s.log, prev_index as int, entries);
    }
    assert(t.sound(b));
    assert(moved(w.model, si, t, seq![reply]).proper(b, reply)) by {
        let v = moved(w.model, si, t, seq![reply]);
        assert forall|i: int|
            #![trigger v.servers[i]]
            0 <= i < v.servers.len() implies {
            &&& v.servers[i].id == reply.from ==> v.servers[i].sent(reply)
            &&& v.servers[i].id == reply.to ==> v.servers[i].expects(reply)
        } by {
            assert(w.model.servers[i].id == v.servers[i].id);
        }
    }
    lemma_sending_move(w.model, b, b, pending, si, t, reply);
    assert(n =~= ModelView { messages: w.model.messages.push(reply), ..w.model.with(si, t) });
}

pub proof fn lemma_handle_append_entries_reply(
    w0: Sim,
    si: int,
    msg: MessageView,
    b: Ballots,
    pending: Seq<MessageView>,
)
    requires
        0 <= si < w0.model.servers.len(),
        w0.model.regular(b, pending),
        pending.contains(msg),
        w0.server(si).id == msg.to,
        msg.body is AppendEntriesRep,
    ensures
        w0.handle_append_entries_reply(si, msg).model.regular(b, pending),
{
    lemma_catch_up(w0, si, msg.term, b, pending);
    let w = w0.catch_up(si, msg.term);
    let s = w.server(si);
    assert(w.model.proper(b, msg));
    assert(s.sound(b));
    if s.state == ServerState::Leader && s.term == msg.term {
        let t = w0.handle_append_entries_reply(si, msg).server(si);
        assert(t.granters() =~= s.granters());
        assert(t.sound(b));
        lemma_quiet_move(w.model, b, b, pending, si, t);
    }
}

/// A log is no longer after a merge than it was, or than the entries reach.
pub proof fn lemma_merged_len(log: Seq<EntryView>, prev_index: int, entries: Seq<EntryView>)
    requires
        0 <= prev_index,
    ensures
        merged(log, prev_index, entries).len() <= if log.len() < prev_index + entries.len() {
            prev_index + entries.len()
        } else {
            log.len() as int
        },
    decreases entries.len(),
{
    if entries.len() > 0 {
        lemma_merged_len(log, prev_index, entries.drop_last());
    }
}

} // verus!
