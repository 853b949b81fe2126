//! What the annals have to do with the cluster as it is, and how every rule,
//! message and user action continues them.

use crate::annals::{
    agree, last_term, lemma_agree_at, lemma_agree_less, lemma_agree_transitive, up_to_date, Annals,
};
use crate::cluster_laws::{
    genuine, holds, law_conflict_is_overwritten, law_merging_again_changes_nothing,
};
use crate::protocol::{
    merged, term_at, BodyView, EntryView, MessageView, ModelView, ServerView, Sim,
};
use crate::quorum::lemma_agreed;
use crate::raft::{ServerState, NUM_SERVERS};
use crate::safety::{
    lemma_advance_commit_index, lemma_become_leader, lemma_catch_up,
    lemma_handle_append_entries_reply, lemma_handle_append_entries_request,
    lemma_handle_request_vote_reply, lemma_handle_request_vote_request, lemma_send_append_entries,
    lemma_send_request_vote, lemma_start_new_election,
};
use crate::validity::lemma_wf_replicas;
use vstd::prelude::*;

verus! {

impl Annals {
    /// What a server of term `term` with `log` takes as committed, up to `c`,
    /// has been committed in some term, and the log has it.
    pub open spec fn covered(self, log: Seq<EntryView>, c: int, term: u64) -> bool {
        c == 0 || exists|t: u64, i: int|
            #![trigger self.own(t, i)]
            self.own(t, i) && t <= term && c <= i && self.committed(t, i) && agree(
                log,
                self.lore[t],
                c,
            )
    }

    /// The annals show the server as it is.
    pub open spec fn show(self, s: ServerView) -> bool {
        &&& self.members.contains(s.id)
        &&& self.era[s.id] == s.term
        &&& s.peers.to_set() == self.members.remove(s.id)
        &&& self.traced(s.log)
        &&& forall|j: int| 0 <= j < s.log.len() ==> (#[trigger] s.log[j]).term <= s.term
        &&& self.remembers(s.log, s.id, s.term + 1, s.term)
        &&& self.covered(s.log, s.commit_index as int, s.term)
        &&& s.state == ServerState::Candidate ==> self.show_candidate(s)
        &&& s.state == ServerState::Leader ==> self.show_leader(s)
    }

    /// The annals show the candidate as it is.
    pub open spec fn show_candidate(self, s: ServerView) -> bool {
        &&& self.stood.contains_key((s.id, s.term))
        &&& self.stood[(s.id, s.term)] == s.log
        &&& s.term >= 1
        &&& self.led(s.term) ==> self.chief[s.term] != s.id
        &&& forall|p: u32| #[trigger]
            s.match_index.contains_key(p) ==> s.peers.contains(p) && s.match_index[p] == 0
    }

    /// The annals show the leader as it is.
    pub open spec fn show_leader(self, s: ServerView) -> bool {
        &&& self.led(s.term)
        &&& self.chief[s.term] == s.id
        &&& self.lore[s.term] == s.log
        &&& forall|p: u32| #[trigger]
            s.match_index.contains_key(p) ==> s.peers.contains(p) && s.match_index[p] <= self.ack(
                p,
                s.term,
            )
    }

    /// What `msg` says is right by the annals.
    pub open spec fn bear_out(self, msg: MessageView) -> bool {
        match msg.body {
            BodyView::RequestVoteReq { last_log_term, last_log_index } => {
                &&& self.stood.contains_key((msg.from, msg.term))
                &&& last_log_index == self.stood[(msg.from, msg.term)].len()
                &&& last_log_term == last_term(self.stood[(msg.from, msg.term)])
            },
            BodyView::RequestVoteRep { .. } => true,
            BodyView::AppendEntriesReq { prev_index, prev_term, entries, commit_index } => {
                &&& self.led(msg.term)
                &&& prev_index + entries.len() <= self.lore[msg.term].len()
                &&& entries == self.lore[msg.term].subrange(
                    prev_index as int,
                    prev_index + entries.len(),
                )
                &&& prev_term == term_at(self.lore[msg.term], prev_index as int)
                &&& commit_index <= prev_index + entries.len()
                &&& self.covered(self.lore[msg.term], commit_index as int, msg.term)
            },
            BodyView::AppendEntriesRep { success, match_index } => success ==> match_index
                <= self.ack(msg.from, msg.term),
        }
    }
}

impl ModelView {
    /// All is as the protocol wants it, and as the annals have it, on the
    /// network and among the messages that are `pending`.
    pub open spec fn recorded(self, h: Annals, pending: Seq<MessageView>) -> bool {
        &&& self.regular(h.ballots, pending)
        &&& h.right()
        &&& forall|i: int| 0 <= i < self.servers.len() ==> h.show(#[trigger] self.servers[i])
        &&& forall|k: int|
            0 <= k < self.messages.len() ==> h.bear_out(#[trigger] self.messages[k])
        &&& forall|k: int| 0 <= k < pending.len() ==> h.bear_out(#[trigger] pending[k])
    }
}

// ----- what goes on being shown -----

impl Annals {
    proof fn lemma_grown_covered(
        self,
        n: Annals,
        v: u32,
        log: Seq<EntryView>,
        c: int,
        term: u64,
    )
        requires
            self.grows(n, v),
            self.covered(log, c, term),
        ensures
            n.covered(log, c, term),
    {
        if c != 0 {
            let (t, i) = choose|t: u64, i: int|
                #![trigger self.own(t, i)]
                self.own(t, i) && t <= term && c <= i && self.committed(t, i) && agree(
                    log,
                    self.lore[t],
                    c,
                );
            lemma_agree_less(self.lore[t], n.lore[t], self.lore[t].len() as int, i);
            lemma_agree_transitive(log, self.lore[t], n.lore[t], c, i);
            self.lemma_grown_committed(n, v, t, i);
            assert(n.own(t, i));
        }
    }

    /// A log that agrees covers as much.
    proof fn lemma_covered_alike(
        self,
        a: Seq<EntryView>,
        b: Seq<EntryView>,
        c: int,
        term: u64,
        later: u64,
    )
        requires
            self.covered(a, c, term),
            c != 0 ==> agree(b, a, c),
            term <= later,
        ensures
            self.covered(b, c, later),
    {
        if c != 0 {
            let (t, i) = choose|t: u64, i: int|
                #![trigger self.own(t, i)]
                self.own(t, i) && t <= term && c <= i && self.committed(t, i) && agree(
                    a,
                    self.lore[t],
                    c,
                );
            lemma_agree_transitive(b, a, self.lore[t], c, c);
            assert(self.own(t, i));
        }
    }

    /// Another server is shown as before.
    proof fn lemma_grown_show(self, n: Annals, v: u32, s: ServerView)
        requires
            self.right(),
            self.grows(n, v),
            self.show(s),
            s.id != v,
        ensures
            n.show(s),
    {
        assert(n.era[s.id] == self.era[s.id]);
        self.lemma_grown_traced(n, v, s.log);
        self.lemma_grown_remembers(n, v, s.log, s.id, s.term + 1, s.term);
        self.lemma_grown_covered(n, v, s.log, s.commit_index as int, s.term);
        if s.state == ServerState::Candidate {
            if n.led(s.term) && !self.led(s.term) {
                assert(n.chief[s.term] == v);
            }
        }
        if s.state == ServerState::Leader {
            assert forall|p: u32| #[trigger] s.match_index.contains_key(p) implies s.peers.contains(p)
                && s.match_index[p] <= n.ack(p, s.term) by {
                assert(self.ack(p, s.term) <= n.ack(p, s.term));
            }
        }
    }

    /// A message is borne out as before.
    proof fn lemma_grown_bear_out(self, n: Annals, v: u32, msg: MessageView)
        requires
            self.right(),
            self.grows(n, v),
            self.bear_out(msg),
        ensures
            n.bear_out(msg),
    {
        match msg.body {
            BodyView::AppendEntriesReq { prev_index, prev_term, entries, commit_index } => {
                let l = self.lore[msg.term];
                let m = n.lore[msg.term];
                let k = prev_index + entries.len();
                assert(agree(l, m, l.len() as int));
                assert(l.take(l.len() as int) =~= l);
                assert(entries =~= m.subrange(prev_index as int, k)) by {
                    assert forall|j: int| 0 <= j < entries.len() implies entries[j] == m.subrange(
                        prev_index as int,
                        k,
                    )[j] by {
                        lemma_agree_at(l, m, l.len() as int, prev_index + j);
                    }
                }
                if prev_index > 0 {
                    lemma_agree_at(l, m, l.len() as int, prev_index - 1);
                }
                self.lemma_grown_covered(n, v, l, commit_index as int, msg.term);
                lemma_agree_less(l, m, l.len() as int, commit_index as int);
                n.lemma_covered_alike(l, m, commit_index as int, msg.term, msg.term);
            },
            BodyView::AppendEntriesRep { success, match_index } => {
                assert(self.ack(msg.from, msg.term) <= n.ack(msg.from, msg.term));
            },
            _ => {},
        }
    }
}

/// A server moves to `t` and sends `msgs`, and the annals go on to `n`.
pub proof fn lemma_recorded_move(
    m: ModelView,
    h: Annals,
    pending: Seq<MessageView>,
    si: int,
    t: ServerView,
    msgs: Seq<MessageView>,
    n: Annals,
    m1: ModelView,
)
    requires
        m.recorded(h, pending),
        0 <= si < m.servers.len(),
        n.right(),
        h.grows(n, m.servers[si].id),
        n.show(t),
        forall|k: int| 0 <= k < msgs.len() ==> n.bear_out(#[trigger] msgs[k]),
        m1.servers == m.servers.update(si, t),
        m1.messages == m.messages + msgs,
        m1.regular(n.ballots, pending),
    ensures
        m1.recorded(n, pending),
        h.leads_to(n),
{
    let v = m.servers[si].id;
    h.lemma_grown_leads_to(n, v);
    assert forall|i: int| 0 <= i < m1.servers.len() implies n.show(#[trigger] m1.servers[i]) by {
        if i != si {
            assert(m1.servers[i] == m.servers[i]);
            assert(m.servers[i].id != m.servers[si].id);
            h.lemma_grown_show(n, v, m.servers[i]);
        }
    }
    assert forall|k: int| 0 <= k < m1.messages.len() implies n.bear_out(
        #[trigger] m1.messages[k],
    ) by {
        if k < m.messages.len() {
            assert(m1.messages[k] == m.messages[k]);
            h.lemma_grown_bear_out(n, v, m.messages[k]);
        } else {
            assert(m1.messages[k] == msgs[k - m.messages.len()]);
        }
    }
    assert forall|k: int| 0 <= k < pending.len() implies n.bear_out(#[trigger] pending[k]) by {
        h.lemma_grown_bear_out(n, v, pending[k]);
    }
}

/// Nothing new is nothing wrong.
pub proof fn lemma_no_news(h: Annals, v: u32)
    requires
        h.right(),
    ensures
        h.grows(h, v),
{
}

/// Less is covered where more is.
proof fn lemma_covered_less(h: Annals, log: Seq<EntryView>, c: int, term: u64, less: int)
    requires
        h.covered(log, c, term),
        0 <= less <= c,
    ensures
        h.covered(log, less, term),
{
    if less != 0 {
        let (t, i) = choose|t: u64, i: int|
            #![trigger h.own(t, i)]
            h.own(t, i) && t <= term && c <= i && h.committed(t, i) && agree(log, h.lore[t], c);
        lemma_agree_less(log, h.lore[t], c, less);
        assert(h.own(t, i));
    }
}

// ----- rules -----

pub proof fn lemma_recorded_election_start(
    w: Sim,
    si: int,
    h: Annals,
    pending: Seq<MessageView>,
) -> (n: Annals)
    requires
        0 <= si < w.model.servers.len(),
        w.model.recorded(h, pending),
        w.server(si).can_stand(w.model.time),
    ensures
        h.leads_to(n),
        w.start_new_election(si).model.recorded(n, pending),
{
    let s = w.server(si);
    lemma_start_new_election(w, si, h.ballots, pending);
    if s.times_out(w.model.time) {
        let w1 = w.start_new_election(si);
        let t = w1.server(si);
        let n = h.candidacy(s.id, t.term, s.log);
        assert(h.show(s));
        assert forall|j: int| 0 <= j < s.log.len() implies (#[trigger] s.log[j]).term < t.term by {
            assert(s.log[j].term <= s.term);
        }
        h.lemma_candidacy(s.id, t.term, s.log);
        assert(n.show(t)) by {
            h.lemma_grown_traced(n, s.id, s.log);
            h.lemma_grown_covered(n, s.id, s.log, s.commit_index as int, s.term);
            n.lemma_covered_alike(s.log, s.log, s.commit_index as int, s.term, t.term);
            assert(n.ballots.contains_key((s.id, t.term)));
            assert(n.vote_right(s.id, t.term));
            assert forall|u: u64, i: int|
                #![trigger n.own(u, i)]
                n.own(u, i) && u < t.term + 1 && i <= n.ack(s.id, u) implies agree(
                t.log,
                n.lore[u],
                i,
            ) || n.overruled(u, i, t.term) by {
                if u == t.term {
                    assert(h.acked.contains_key((s.id, u)));
                    assert(h.ack_right(s.id, u));
                }
            }
            if h.led(t.term) && h.chief[t.term] == s.id {
                assert(h.term_right(t.term));
                assert(h.electors[t.term].contains(s.id));
                assert(h.vote_right(s.id, t.term));
            }
        }
        lemma_recorded_move(w.model, h, pending, si, t, Seq::empty(), n, w1.model);
        n
    } else {
        h
    }
}

pub proof fn lemma_recorded_become_leader(
    m: ModelView,
    si: int,
    h: Annals,
    pending: Seq<MessageView>,
) -> (n: Annals)
    requires
        0 <= si < m.servers.len(),
        m.recorded(h, pending),
    ensures
        h.leads_to(n),
        m.become_leader(si).recorded(n, pending),
{
    let s = m.servers[si];
    lemma_become_leader(m, si, h.ballots, pending);
    if s.wins() {
        let t = s.leading();
        let q = s.granters().insert(s.id);
        let n = h.election(s.id, s.term, q);
        assert(h.show(s));
        assert(s.sound(h.ballots));
        assert(s.granters().subset_of(s.vote_granted.dom()));
        vstd::set_lib::lemma_len_subset(s.granters(), s.vote_granted.dom());
        assert(!s.granters().contains(s.id));
        assert forall|x: u32| #[trigger] q.contains(x) implies h.ballots.contains_key((x, s.term))
            && h.ballots[(x, s.term)] == s.id && h.members.contains(x) by {
            if x != s.id {
                assert(s.granters().contains(x));
                assert(s.peers.to_set().contains(x));
            }
        }
        assert(h.quorum(q));
        if h.led(s.term) {
            assert(h.term_right(s.term));
            let x = h.lemma_quorums_meet(q, h.electors[s.term]);
            assert(h.ballots[(x, s.term)] == h.chief[s.term]);
        }
        h.lemma_election(s.id, s.term, q);
        assert(n.show(t)) by {
            h.lemma_grown_traced(n, s.id, s.log);
            h.lemma_grown_remembers(n, s.id, s.log, s.id, s.term + 1, s.term);
            h.lemma_grown_covered(n, s.id, s.log, s.commit_index as int, s.term);
        }
        lemma_recorded_move(m, h, pending, si, t, Seq::empty(), n, m.become_leader(si));
        n
    } else {
        h
    }
}

/// Those known to have a place make a quorum, the leader counted, if those
/// that may lack it do not.
proof fn lemma_holders(h: Annals, s: ServerView, i: int) -> (q: Set<u32>)
    requires
        h.right(),
        h.show(s),
        s.wf(),
        s.state == ServerState::Leader,
        s.trailing(i) <= NUM_SERVERS / 2,
        i <= s.log.len(),
    ensures
        h.quorum(q),
        forall|v: u32| #[trigger] q.contains(v) ==> v == s.id || h.ack(v, s.term) >= i,
{
    let all = s.match_index.dom();
    let behind = all.filter(|p: u32| s.match_index[p] < i);
    let ahead = all.filter(|p: u32| s.match_index[p] >= i);
    let q = ahead.insert(s.id);
    assert(all =~= h.members.remove(s.id)) by {
        assert forall|p: u32| all.contains(p) <==> h.members.remove(s.id).contains(p) by {
            assert(s.peers.to_set().contains(p) <==> s.peers.contains(p));
        }
    }
    assert(all.len() == NUM_SERVERS - 1);
    assert(ahead =~= all.difference(behind));
    assert(behind.subset_of(all));
    vstd::set_lib::lemma_len_subset(behind, all);
    vstd::set_lib::lemma_set_difference_len(all, behind);
    assert(all.intersect(behind) =~= behind);
    assert(!ahead.contains(s.id));
    vstd::set_lib::lemma_len_subset(ahead, all);
    assert(q.subset_of(h.members));
    q
}

pub proof fn lemma_recorded_commit(
    m: ModelView,
    si: int,
    h: Annals,
    pending: Seq<MessageView>,
) -> (n: Annals)
    requires
        0 <= si < m.servers.len(),
        m.recorded(h, pending),
    ensures
        h.leads_to(n),
        m.advance_commit_index(si).recorded(n, pending),
{
    let s = m.servers[si];
    let t = s.committing();
    lemma_advance_commit_index(m, si, h.ballots, pending);
    assert(h.show(s));
    assert(s.sound(h.ballots));
    if t.commit_index != s.commit_index {
        let i = s.agreed();
        lemma_wf_replicas(s);
        lemma_agreed(s);
        assert(h.term_right(s.term));
        assert(s.log[i - 1].term == s.term);
        assert(h.lore[s.term][i - 1].term == s.term);
        assert(h.own(s.term, i));
        let q = lemma_holders(h, s, i);
        let n = h.taking_up(s.id, s.term, i);
        h.lemma_taking_up(s.id, s.term, i);
        assert(n.backing(q, s.term, i)) by {
            assert forall|v: u32| #[trigger] q.contains(v) implies n.ack(v, s.term) >= i by {
                assert(h.ack(v, s.term) <= n.ack(v, s.term));
            }
        }
        assert(n.show(t)) by {
            h.lemma_grown_traced(n, s.id, s.log);
            assert(n.own(s.term, i));
            assert(s.log.take(i) == n.lore[s.term].take(i));
            assert forall|u: u64, k: int|
                #![trigger n.own(u, k)]
                n.own(u, k) && u < t.term + 1 && k <= n.ack(s.id, u) implies agree(
                t.log,
                n.lore[u],
                k,
            ) || n.overruled(u, k, t.term) by {
                if u != s.term {
                    assert(h.own(u, k));
                    if !agree(s.log, h.lore[u], k) {
                        h.lemma_grown_overruled(n, s.id, u, k, s.term);
                    }
                }
            }
            assert forall|p: u32| #[trigger] t.match_index.contains_key(p) implies t.peers.contains(p)
                && t.match_index[p] <= n.ack(p, t.term) by {
                assert(s.match_index.contains_key(p));
                assert(h.ack(p, s.term) <= n.ack(p, s.term));
            }
        }
        lemma_recorded_move(m, h, pending, si, t, Seq::empty(), n, m.advance_commit_index(si));
        n
    } else {
        lemma_no_news(h, s.id);
        lemma_recorded_move(m, h, pending, si, t, Seq::empty(), h, m.advance_commit_index(si));
        h
    }
}

pub proof fn lemma_recorded_send_request_vote(
    w: Sim,
    si: int,
    peer: u32,
    h: Annals,
    pending: Seq<MessageView>,
)
    requires
        0 <= si < w.model.servers.len(),
        w.model.recorded(h, pending),
        w.server(si).peers.contains(peer),
    ensures
        w.send_request_vote(si, peer).model.recorded(h, pending),
{
    let s = w.server(si);
    lemma_send_request_vote(w, si, peer, h.ballots, pending);
    if s.asks(peer, w.model.time) {
        let m1 = w.send_request_vote(si, peer).model;
        let msg = m1.messages.last();
        assert(h.show(s));
        lemma_no_news(h, s.id);
        assert(h.bear_out(msg));
        assert(m1.messages =~= w.model.messages + seq![msg]);
        lemma_recorded_move(w.model, h, pending, si, m1.servers[si], seq![msg], h, m1);
    }
}

pub proof fn lemma_recorded_send_append_entries(
    w: Sim,
    si: int,
    peer: u32,
    h: Annals,
    pending: Seq<MessageView>,
)
    requires
        0 <= si < w.model.servers.len(),
        w.model.recorded(h, pending),
        w.server(si).peers.contains(peer),
    ensures
        w.send_append_entries(si, peer).model.recorded(h, pending),
{
    let s = w.server(si);
    lemma_send_append_entries(w, si, peer, h.ballots, pending);
    if s.writes(peer, w.model.time) {
        let m1 = w.send_append_entries(si, peer).model;
        let msg = m1.messages.last();
        assert(h.show(s));
        assert(s.sound(h.ballots));
        lemma_no_news(h, s.id);
        if let BodyView::AppendEntriesReq { commit_index, .. } = msg.body {
            lemma_covered_less(h, s.log, s.commit_index as int, s.term, commit_index as int);
        }
        assert(h.bear_out(msg));
        assert(m1.messages =~= w.model.messages + seq![msg]);
        lemma_recorded_move(w.model, h, pending, si, m1.servers[si], seq![msg], h, m1);
    }
}

// ----- messages -----

pub proof fn lemma_recorded_catch_up(
    w: Sim,
    si: int,
    term: u64,
    h: Annals,
    pending: Seq<MessageView>,
) -> (n: Annals)
    requires
        0 <= si < w.model.servers.len(),
        w.model.recorded(h, pending),
    ensures
        h.leads_to(n),
        w.catch_up(si, term).model.recorded(n, pending),
        n.ballots == h.ballots,
        w.catch_up(si, term).model.servers.len() == w.model.servers.len(),
        w.catch_up(si, term).server(si).id == w.server(si).id,
        w.catch_up(si, term).server(si).term >= term,
{
    let s = w.server(si);
    lemma_catch_up(w, si, term, h.ballots, pending);
    if s.term < term {
        let m1 = w.catch_up(si, term).model;
        let t = m1.servers[si];
        let n = h.moved_on(s.id, term);
        assert(h.show(s));
        h.lemma_moved_on(s.id, term);
        assert(n.show(t)) by {
            h.lemma_grown_traced(n, s.id, s.log);
            h.lemma_grown_covered(n, s.id, s.log, s.commit_index as int, s.term);
            n.lemma_covered_alike(s.log, s.log, s.commit_index as int, s.term, term);
            assert forall|u: u64, i: int|
                #![trigger n.own(u, i)]
                n.own(u, i) && u < t.term + 1 && i <= n.ack(s.id, u) implies agree(
                t.log,
                n.lore[u],
                i,
            ) || n.overruled(u, i, t.term) by {
                assert(h.acked.contains_key((s.id, u)));
                assert(h.ack_right(s.id, u));
                assert(h.own(u, i));
                if !agree(s.log, h.lore[u], i) {
                    h.lemma_grown_overruled(n, s.id, u, i, s.term);
                    n.lemma_overruled_later(u, i, s.term, term);
                }
            }
            assert forall|j: int| 0 <= j < t.log.len() implies (#[trigger] t.log[j]).term
                <= t.term by {
                assert(s.log[j].term <= s.term);
            }
        }
        lemma_recorded_move(w.model, h, pending, si, t, Seq::empty(), n, m1);
        n
    } else {
        h
    }
}

/// What becomes of a server that is asked for its vote, and what it answers.
proof fn lemma_answer_to_candidate(w0: Sim, si: int, msg: MessageView)
    requires
        0 <= si < w0.model.servers.len(),
        w0.server(si).id == msg.to,
        msg.body is RequestVoteReq,
    ensures
        ({
            let w = w0.catch_up(si, msg.term);
            let s = w.server(si);
            let m1 = w0.handle_request_vote_request(si, msg).model;
            let t = m1.servers[si];
            let reply = m1.messages.last();
            &&& m1.servers == w.model.servers.update(si, t)
            &&& m1.messages == w.model.messages + seq![reply]
            &&& reply.body is RequestVoteRep
            &&& t == (ServerView {
                voted_for: t.voted_for,
                election_alarm: t.election_alarm,
                ..s
            })
            &&& t.voted_for == s.voted_for || (s.voted_for is None && t.voted_for == Some(msg.from)
                && s.grants(
                msg.from,
                msg.term,
                msg.body->last_log_term,
                msg.body->last_log_index,
            ))
        }),
{
    let w = w0.catch_up(si, msg.term);
    let m1 = w0.handle_request_vote_request(si, msg).model;
    let t = m1.servers[si];
    assert(m1.servers =~= w.model.servers.update(si, t));
    assert(m1.messages =~= w.model.messages + seq![m1.messages.last()]);
}

pub proof fn lemma_recorded_request_vote_request(
    w0: Sim,
    si: int,
    msg: MessageView,
    h0: Annals,
    pending: Seq<MessageView>,
) -> (n: Annals)
    requires
        0 <= si < w0.model.servers.len(),
        w0.model.recorded(h0, pending),
        pending.contains(msg),
        w0.server(si).id == msg.to,
        msg.body is RequestVoteReq,
    ensures
        h0.leads_to(n),
        w0.handle_request_vote_request(si, msg).model.recorded(n, pending),
{
    let h = lemma_recorded_catch_up(w0, si, msg.term, h0, pending);
    let b1 = lemma_handle_request_vote_request(w0, si, msg, h0.ballots, pending);
    lemma_answer_to_candidate(w0, si, msg);
    let m = w0.catch_up(si, msg.term).model;
    let s = m.servers[si];
    let m1 = w0.handle_request_vote_request(si, msg).model;
    let t = m1.servers[si];
    let reply = m1.messages.last();
    assert(h.bear_out(msg));
    assert(h.show(s));
    assert(s.sound(h.ballots));
    if t.voted_for is Some && s.voted_for is None {
        assert(up_to_date(h.stood[(msg.from, msg.term)], s.log));
        let n = lemma_recorded_vote(m, si, t, msg.from, reply, h, pending, m1);
        h0.lemma_leads_to_transitive(h, n);
        n
    } else {
        assert(b1 =~= h.ballots);
        lemma_no_news(h, s.id);
        lemma_recorded_move(m, h, pending, si, t, seq![reply], h, m1);
        h
    }
}

/// A server votes for `c`, and says so.
proof fn lemma_recorded_vote(
    m: ModelView,
    si: int,
    t: ServerView,
    c: u32,
    reply: MessageView,
    h: Annals,
    pending: Seq<MessageView>,
    m1: ModelView,
) -> (n: Annals)
    requires
        0 <= si < m.servers.len(),
        m.recorded(h, pending),
        m.servers[si].voted_for is None,
        t == (ServerView {
            voted_for: Some(c),
            election_alarm: t.election_alarm,
            ..m.servers[si]
        }),
        reply.body is RequestVoteRep,
        h.stood.contains_key((c, t.term)),
        up_to_date(h.stood[(c, t.term)], t.log),
        m1.servers == m.servers.update(si, t),
        m1.messages == m.messages + seq![reply],
        m1.regular(h.ballots.insert((t.id, t.term), c), pending),
    ensures
        h.leads_to(n),
        m1.recorded(n, pending),
{
    let s = m.servers[si];
    let n = h.vote(s.id, s.term, c, s.log);
    assert(h.show(s));
    assert(s.sound(h.ballots));
    h.lemma_vote(s.id, s.term, c, s.log);
    assert(n.show(t)) by {
        h.lemma_grown_traced(n, s.id, s.log);
        h.lemma_grown_remembers(n, s.id, s.log, s.id, s.term + 1, s.term);
        h.lemma_grown_covered(n, s.id, s.log, s.commit_index as int, s.term);
    }
    lemma_recorded_move(m, h, pending, si, t, seq![reply], n, m1);
    n
}

pub proof fn lemma_recorded_request_vote_reply(
    w0: Sim,
    si: int,
    msg: MessageView,
    h0: Annals,
    pending: Seq<MessageView>,
) -> (n: Annals)
    requires
        0 <= si < w0.model.servers.len(),
        w0.model.recorded(h0, pending),
        pending.contains(msg),
        w0.server(si).id == msg.to,
        msg.body is RequestVoteRep,
    ensures
        h0.leads_to(n),
        w0.handle_request_vote_reply(si, msg).model.recorded(n, pending),
{
    let h = lemma_recorded_catch_up(w0, si, msg.term, h0, pending);
    lemma_handle_request_vote_reply(w0, si, msg, h0.ballots, pending);
    let w = w0.catch_up(si, msg.term);
    let s = w.server(si);
    let m1 = w0.handle_request_vote_reply(si, msg).model;
    if s.state == ServerState::Candidate && s.term == msg.term {
        assert(h.show(s));
        lemma_no_news(h, s.id);
        lemma_recorded_move(w.model, h, pending, si, m1.servers[si], Seq::empty(), h, m1);
    }
    h
}

pub proof fn lemma_recorded_append_entries_reply(
    w0: Sim,
    si: int,
    msg: MessageView,
    h0: Annals,
    pending: Seq<MessageView>,
) -> (n: Annals)
    requires
        0 <= si < w0.model.servers.len(),
        w0.model.recorded(h0, pending),
        pending.contains(msg),
        w0.server(si).id == msg.to,
        msg.body is AppendEntriesRep,
    ensures
        h0.leads_to(n),
        w0.handle_append_entries_reply(si, msg).model.recorded(n, pending),
{
    let h = lemma_recorded_catch_up(w0, si, msg.term, h0, pending);
    lemma_handle_append_entries_reply(w0, si, msg, h0.ballots, pending);
    let w = w0.catch_up(si, msg.term);
    let s = w.server(si);
    let m1 = w0.handle_append_entries_reply(si, msg).model;
    if s.state == ServerState::Leader && s.term == msg.term {
        let t = m1.servers[si];
        assert(h.show(s));
        assert(h.bear_out(msg));
        assert(w.model.proper(h.ballots, msg));
        lemma_no_news(h, s.id);
        assert(h.show(t)) by {
            assert forall|p: u32| #[trigger] t.match_index.contains_key(p) implies t.peers.contains(p)
                && t.match_index[p] <= h.ack(p, t.term) by {
                if p != msg.from {
                    assert(s.match_index.contains_key(p));
                }
            }
        }
        lemma_recorded_move(w.model, h, pending, si, t, Seq::empty(), h, m1);
    }
    h
}

// ----- taking up entries -----

/// The first of `entries` that the log does not hold.
proof fn lemma_first_conflict(
    log: Seq<EntryView>,
    prev_index: int,
    entries: Seq<EntryView>,
) -> (d: int)
    requires
        0 <= prev_index <= log.len(),
        genuine(entries),
        !holds(log, prev_index, entries),
    ensures
        0 <= d < entries.len(),
        holds(log, prev_index, entries.take(d)),
        term_at(log, prev_index + d + 1) != entries[d].term,
    decreases entries.len(),
{
    let n = entries.len();
    assert(n > 0);
    let front = entries.drop_last();
    assert forall|j: int| 0 <= j < front.len() implies (#[trigger] front[j]).term > 0 by {
        assert(front[j] == entries[j]);
    }
    if holds(log, prev_index, front) {
        assert(entries.take(n - 1) =~= front);
        assert(entries[n - 1].term > 0);
        if term_at(log, prev_index + n) == entries[n - 1].term {
            assert forall|j: int| 0 <= j < entries.len() implies term_at(log, prev_index + j + 1)
                == (#[trigger] entries[j]).term by {
                if j < n - 1 {
                    assert(front[j] == entries[j]);
                }
            }
            assert(holds(log, prev_index, entries));
        }
        n - 1
    } else {
        let d = lemma_first_conflict(log, prev_index, front);
        assert(front.take(d) =~= entries.take(d));
        assert(front[d] == entries[d]);
        d
    }
}

/// A traced log that holds entries of a leader's log behind a point up to
/// which they agree, agrees up to the end of the entries.
proof fn lemma_holding_agrees(
    h: Annals,
    log: Seq<EntryView>,
    t: u64,
    prev_index: int,
    entries: Seq<EntryView>,
)
    requires
        h.right(),
        h.led(t),
        h.traced(log),
        agree(log, h.lore[t], prev_index),
        prev_index + entries.len() <= h.lore[t].len(),
        entries == h.lore[t].subrange(prev_index, prev_index + entries.len()),
        holds(log, prev_index, entries),
    ensures
        agree(log, h.lore[t], prev_index + entries.len()),
{
    let n = entries.len() as int;
    if n > 0 {
        let j = prev_index + n - 1;
        assert(h.term_right(t));
        assert(term_at(log, prev_index + (n - 1) + 1) == entries[n - 1].term);
        assert(entries[n - 1] == h.lore[t][j]);
        h.lemma_traced_match(log, h.lore[t], j);
    }
}

/// What a log is after entries of a leader's log have been merged into it: it
/// agrees with the leader's up to the end of the entries, loses nothing that
/// it had in common with it, and is the log that it was or a part of the
/// leader's.
proof fn lemma_merged_into(
    h: Annals,
    log: Seq<EntryView>,
    t: u64,
    prev_index: int,
    entries: Seq<EntryView>,
)
    requires
        h.right(),
        h.led(t),
        h.traced(log),
        agree(log, h.lore[t], prev_index),
        prev_index + entries.len() <= h.lore[t].len(),
        entries == h.lore[t].subrange(prev_index, prev_index + entries.len()),
    ensures
        agree(merged(log, prev_index, entries), h.lore[t], prev_index + entries.len()),
        merged(log, prev_index, entries) == log || merged(log, prev_index, entries)
            == h.lore[t].take(prev_index + entries.len()),
        forall|c: int| #[trigger]
            agree(log, h.lore[t], c) ==> agree(merged(log, prev_index, entries), h.lore[t], c),
{
    let lore = h.lore[t];
    let k = prev_index + entries.len();
    assert(lore.take(k).take(k) =~= lore.take(k));
    assert(h.term_right(t));
    assert forall|j: int| 0 <= j < entries.len() implies (#[trigger] entries[j]).term > 0 by {
        assert(entries[j] == lore[prev_index + j]);
    }
    if holds(log, prev_index, entries) {
        law_merging_again_changes_nothing(log, prev_index, entries);
        lemma_holding_agrees(h, log, t, prev_index, entries);
    } else {
        let d = lemma_first_conflict(log, prev_index, entries);
        let part = entries.take(d);
        assert(part =~= lore.subrange(prev_index, prev_index + d));
        lemma_holding_agrees(h, log, t, prev_index, part);
        lemma_overwritten(log, lore, prev_index, entries, d);
    }
}

/// What a log is after entries have been merged into it that it conflicts
/// with.
proof fn lemma_overwritten(
    log: Seq<EntryView>,
    lore: Seq<EntryView>,
    prev_index: int,
    entries: Seq<EntryView>,
    d: int,
)
    requires
        0 <= prev_index,
        0 <= d < entries.len(),
        genuine(entries),
        agree(log, lore, prev_index + d),
        prev_index + entries.len() <= lore.len(),
        entries == lore.subrange(prev_index, prev_index + entries.len()),
        holds(log, prev_index, entries.take(d)),
        term_at(log, prev_index + d + 1) != entries[d].term,
    ensures
        merged(log, prev_index, entries) == lore.take(prev_index + entries.len()),
        forall|c: int| #[trigger]
            agree(log, lore, c) ==> agree(lore.take(prev_index + entries.len()), lore, c),
{
    let k = prev_index + entries.len();
    let r = merged(log, prev_index, entries);
    law_conflict_is_overwritten(log, prev_index, entries, d);
    assert(r =~= lore.take(k)) by {
        assert forall|j: int| 0 <= j < k implies r[j] == lore[j] by {
            if j < prev_index + d {
                lemma_agree_at(log, lore, prev_index + d, j);
                assert(r[j] == log[j]);
            } else {
                assert(r[j] == entries.skip(d)[j - prev_index - d]);
                assert(entries.skip(d)[j - prev_index - d] == entries[j - prev_index]);
            }
        }
    }
    assert forall|c: int| #[trigger] agree(log, lore, c) implies agree(lore.take(k), lore, c) by {
        if c > prev_index + d {
            lemma_agree_at(log, lore, c, prev_index + d);
            assert(entries[d] == lore[prev_index + d]);
        }
        assert(lore.take(k).take(c) =~= lore.take(c));
    }
}

/// A server has taken up entries of its term's leader.
proof fn lemma_taken_up(
    h: Annals,
    s: ServerView,
    f: ServerView,
    prev_index: int,
    entries: Seq<EntryView>,
    commit: int,
) -> (n: Annals)
    requires
        h.right(),
        h.show(s),
        h.led(s.term),
        agree(s.log, h.lore[s.term], prev_index),
        prev_index + entries.len() <= h.lore[s.term].len(),
        entries == h.lore[s.term].subrange(prev_index, prev_index + entries.len()),
        commit <= prev_index + entries.len(),
        h.covered(h.lore[s.term], commit, s.term),
        f == (ServerView {
            state: ServerState::Follower,
            log: merged(s.log, prev_index, entries),
            election_alarm: f.election_alarm,
            commit_index: f.commit_index,
            ..s
        }),
        f.commit_index == if s.commit_index < commit {
            commit
        } else {
            s.commit_index as int
        },
    ensures
        n.right(),
        h.grows(n, s.id),
        n.show(f),
        n.ballots == h.ballots,
        n.ack(s.id, s.term) >= prev_index + entries.len(),
{
    let t = s.term;
    let lore = h.lore[t];
    let k = prev_index + entries.len();
    let n = h.taking_up(s.id, t, k);
    h.lemma_taking_up(s.id, t, k);
    lemma_merged_into(h, s.log, t, prev_index, entries);
    assert(h.term_right(t));
    assert(h.traced(f.log)) by {
        h.lemma_traced_take(lore, k);
    }
    h.lemma_grown_traced(n, s.id, f.log);
    assert forall|j: int| 0 <= j < f.log.len() implies (#[trigger] f.log[j]).term <= f.term by {
        if f.log == s.log {
            assert(s.log[j].term <= s.term);
        } else {
            assert(f.log[j] == lore[j]);
        }
    }
    assert(n.remembers(f.log, f.id, f.term + 1, f.term)) by {
        assert forall|u: u64, i: int|
            #![trigger n.own(u, i)]
            n.own(u, i) && u < f.term + 1 && i <= n.ack(f.id, u) implies agree(
            f.log,
            n.lore[u],
            i,
        ) || n.overruled(u, i, f.term) by {
            assert(h.own(u, i));
            if u == t {
                if i <= k {
                    lemma_agree_less(f.log, lore, k, i);
                } else {
                    assert(i <= h.ack(s.id, t));
                    assert(!h.overruled(t, i, t));
                    assert(agree(s.log, lore, i));
                }
            } else if agree(s.log, h.lore[u], i) {
                if h.keeps(t, u, i) {
                    let founding = h.founding[t];
                    lemma_agree_less(founding, lore, founding.len() as int, i);
                    lemma_agree_less(founding, h.lore[u], i, i);
                    assert(agree(s.log, lore, i));
                    assert(agree(f.log, lore, i));
                } else {
                    assert(h.led(t));
                    assert(h.overruled(u, i, t));
                    h.lemma_grown_overruled(n, s.id, u, i, t);
                }
            } else {
                h.lemma_grown_overruled(n, s.id, u, i, t);
            }
        }
    }
    assert(n.covered(f.log, f.commit_index as int, f.term)) by {
        let c = s.commit_index as int;
        if s.commit_index < commit {
            lemma_agree_less(f.log, lore, k, commit);
            h.lemma_covered_alike(lore, f.log, commit, t, t);
        } else if c != 0 {
            lemma_committed_log(h, s.log, c, t);
            assert(agree(f.log, lore, c));
            lemma_agree_less(s.log, lore, c, c);
            h.lemma_covered_alike(s.log, f.log, c, t, t);
        }
        h.lemma_grown_covered(n, s.id, f.log, f.commit_index as int, f.term);
    }
    n
}

/// What is covered in a term is in the log of the term's leader.
pub proof fn lemma_committed_log(h: Annals, log: Seq<EntryView>, c: int, term: u64)
    requires
        h.right(),
        h.led(term),
        h.covered(log, c, term),
        c > 0,
    ensures
        agree(log, h.lore[term], c),
{
    let (t, i) = choose|t: u64, i: int|
        #![trigger h.own(t, i)]
        h.own(t, i) && t <= term && c <= i && h.committed(t, i) && agree(log, h.lore[t], c);
    if t < term {
        h.lemma_committed_kept(t, i, term);
        assert(h.term_right(term));
        let f = h.founding[term];
        lemma_agree_less(f, h.lore[term], f.len() as int, c);
        lemma_agree_less(f, h.lore[t], i, c);
    }
}

/// What becomes of a server that is asked to take up entries, and what it
/// answers.
proof fn lemma_answer_to_entries(w0: Sim, si: int, msg: MessageView)
    requires
        0 <= si < w0.model.servers.len(),
        w0.server(si).id == msg.to,
        msg.body is AppendEntriesReq,
    ensures
        ({
            let w = w0.catch_up(si, msg.term);
            let s = w.server(si);
            let m1 = w0.handle_append_entries_request(si, msg).model;
            let t = m1.servers[si];
            let reply = m1.messages.last();
            &&& m1.servers == w.model.servers.update(si, t)
            &&& m1.messages == w.model.messages + seq![reply]
            &&& reply.from == msg.to
            &&& match msg.body {
                BodyView::AppendEntriesReq { prev_index, prev_term, entries, commit_index } => {
                    if s.term == msg.term && s.accepts(prev_index, prev_term) {
                        &&& t == (ServerView {
                            state: ServerState::Follower,
                            election_alarm: t.election_alarm,
                            log: merged(s.log, prev_index as int, entries),
                            commit_index: if s.commit_index < commit_index {
                                commit_index
                            } else {
                                s.commit_index
                            },
                            ..s
                        })
                        &&& reply.term == msg.term
                        &&& reply.body == (BodyView::AppendEntriesRep {
                            success: true,
                            match_index: (prev_index + entries.len()) as usize,
                        })
                    } else {
                        &&& t == s || t == (ServerView {
                            state: ServerState::Follower,
                            election_alarm: t.election_alarm,
                            ..s
                        })
                        &&& reply.body == (BodyView::AppendEntriesRep {
                            success: false,
                            match_index: 0,
                        })
                    }
                },
                _ => false,
            }
        }),
{
    let w = w0.catch_up(si, msg.term);
    let m1 = w0.handle_append_entries_request(si, msg).model;
    let t = m1.servers[si];
    assert(m1.servers =~= w.model.servers.update(si, t));
    assert(m1.messages =~= w.model.messages + seq![m1.messages.last()]);
}

pub proof fn lemma_recorded_append_entries_request(
    w0: Sim,
    si: int,
    msg: MessageView,
    h0: Annals,
    pending: Seq<MessageView>,
) -> (n: Annals)
    requires
        0 <= si < w0.model.servers.len(),
        w0.model.recorded(h0, pending),
        pending.contains(msg),
        w0.server(si).id == msg.to,
        msg.body is AppendEntriesReq,
    ensures
        h0.leads_to(n),
        w0.handle_append_entries_request(si, msg).model.recorded(n, pending),
{
    let h = lemma_recorded_catch_up(w0, si, msg.term, h0, pending);
    lemma_handle_append_entries_request(w0, si, msg, h0.ballots, pending);
    lemma_answer_to_entries(w0, si, msg);
    let m = w0.catch_up(si, msg.term).model;
    let s = m.servers[si];
    let m1 = w0.handle_append_entries_request(si, msg).model;
    let t = m1.servers[si];
    let reply = m1.messages.last();
    assert(h.bear_out(msg));
    assert(m.proper(h.ballots, msg));
    match msg.body {
        BodyView::AppendEntriesReq { prev_index, prev_term, entries, commit_index } => {
            if s.term == msg.term && s.accepts(prev_index, prev_term) {
                let n = lemma_recorded_acceptance(m, si, t, msg, reply, h, pending, m1);
                h0.lemma_leads_to_transitive(h, n);
                n
            } else {
                lemma_recorded_refusal(m, si, t, reply, h, pending, m1);
                h
            }
        },
        _ => h,
    }
}

/// A server refuses entries, and says so.
proof fn lemma_recorded_refusal(
    m: ModelView,
    si: int,
    t: ServerView,
    reply: MessageView,
    h: Annals,
    pending: Seq<MessageView>,
    m1: ModelView,
)
    requires
        0 <= si < m.servers.len(),
        m.recorded(h, pending),
        t == m.servers[si] || t == (ServerView {
            state: ServerState::Follower,
            election_alarm: t.election_alarm,
            ..m.servers[si]
        }),
        reply.body == (BodyView::AppendEntriesRep { success: false, match_index: 0 }),
        m1.servers == m.servers.update(si, t),
        m1.messages == m.messages + seq![reply],
        m1.regular(h.ballots, pending),
    ensures
        m1.recorded(h, pending),
{
    let s = m.servers[si];
    assert(h.show(s));
    lemma_no_news(h, s.id);
    assert(h.show(t));
    lemma_recorded_move(m, h, pending, si, t, seq![reply], h, m1);
}

/// A server takes up the entries of `msg`, and says so.
proof fn lemma_recorded_acceptance(
    m: ModelView,
    si: int,
    t: ServerView,
    msg: MessageView,
    reply: MessageView,
    h: Annals,
    pending: Seq<MessageView>,
    m1: ModelView,
) -> (n: Annals)
    requires
        0 <= si < m.servers.len(),
        m.recorded(h, pending),
        h.bear_out(msg),
        m.servers[si].term == msg.term,
        reply.from == m.servers[si].id,
        reply.term == msg.term,
        match msg.body {
            BodyView::AppendEntriesReq { prev_index, prev_term, entries, commit_index } => {
                &&& m.servers[si].accepts(prev_index, prev_term)
                &&& t == (ServerView {
                    state: ServerState::Follower,
                    election_alarm: t.election_alarm,
                    log: merged(m.servers[si].log, prev_index as int, entries),
                    commit_index: if m.servers[si].commit_index < commit_index {
                        commit_index
                    } else {
                        m.servers[si].commit_index
                    },
                    ..m.servers[si]
                })
                &&& reply.body == (BodyView::AppendEntriesRep {
                    success: true,
                    match_index: (prev_index + entries.len()) as usize,
                })
                &&& prev_index + entries.len() <= usize::MAX
            },
            _ => false,
        },
        m1.servers == m.servers.update(si, t),
        m1.messages == m.messages + seq![reply],
        m1.regular(h.ballots, pending),
    ensures
        h.leads_to(n),
        m1.recorded(n, pending),
{
    let s = m.servers[si];
    assert(h.show(s));
    match msg.body {
        BodyView::AppendEntriesReq { prev_index, prev_term, entries, commit_index } => {
            let lore = h.lore[msg.term];
            assert(h.term_right(msg.term));
            if prev_index > 0 {
                assert(s.log[prev_index - 1].term == lore[prev_index - 1].term);
                h.lemma_traced_match(s.log, lore, prev_index - 1);
            } else {
                assert(s.log.take(0) =~= lore.take(0));
            }
            let n = lemma_taken_up(h, s, t, prev_index as int, entries, commit_index as int);
            assert(n.bear_out(reply));
            lemma_recorded_move(m, h, pending, si, t, seq![reply], n, m1);
            n
        },
        _ => h,
    }
}

/// A leader that has written an entry is shown as it is.
pub proof fn lemma_entry_shown(h: Annals, s: ServerView, t: ServerView, e: EntryView)
    requires
        h.right(),
        h.show(s),
        s.state == ServerState::Leader,
        e.term == s.term,
        t == (ServerView { log: s.log.push(e), ..s }),
    ensures
        h.entry(s.term, e).show(t),
{
    let n = h.entry(s.term, e);
    h.lemma_entry(s.term, e);
    assert(n.led(s.term));
    assert(n.term_right(s.term));
    assert(n.lore[s.term] == t.log);
    let k = s.log.len() as int;
    assert(t.log.take(k) =~= s.log);
    assert(s.log.take(k) =~= s.log);
    assert(agree(t.log, s.log, k));
    h.lemma_grown_remembers(n, s.id, s.log, s.id, s.term + 1, s.term);
    assert forall|u: u64, i: int|
        #![trigger n.own(u, i)]
        n.own(u, i) && u < t.term + 1 && i <= n.ack(t.id, u) implies agree(t.log, n.lore[u], i)
        || n.overruled(u, i, t.term) by {
        if agree(s.log, n.lore[u], i) {
            lemma_agree_transitive(t.log, s.log, n.lore[u], k, i);
        }
    }
    h.lemma_grown_covered(n, s.id, s.log, s.commit_index as int, s.term);
    if s.commit_index != 0 {
        assert(h.covered(s.log, s.commit_index as int, s.term));
        lemma_agree_less(t.log, s.log, k, s.commit_index as int);
    }
    n.lemma_covered_alike(s.log, t.log, s.commit_index as int, s.term, t.term);
    assert forall|j: int| 0 <= j < t.log.len() implies (#[trigger] t.log[j]).term <= t.term by {
        if j < k {
            assert(t.log[j] == s.log[j]);
        }
    }
    assert forall|p: u32| #[trigger] t.match_index.contains_key(p) implies t.peers.contains(p)
        && t.match_index[p] <= n.ack(p, t.term) by {
        assert(s.match_index.contains_key(p));
        assert(h.ack(p, s.term) <= n.ack(p, s.term));
    }
}

} // verus!
