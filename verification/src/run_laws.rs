//! Laws of whole runs: what holds from any moment to any later one, whatever
//! happens in between.

use crate::annals::Annals;
use crate::cluster_laws::{goes_on, law_tick_goes_on};
use crate::consensus_laws::{
    lemma_covered_agree, lemma_covered_later, lemma_recorded_alike,
    lemma_recorded_leave, lemma_recorded_request, lemma_recorded_updated,
};
use crate::consistency::lemma_recorded_election_start;
use crate::laws::{lemma_alike_at_time, lemma_alike_dropped, lemma_alike_retimed};
use crate::protocol::{ModelView, ServerView, Sim};
use crate::raft::ServerState;
use crate::util::RandomView;
use vstd::prelude::*;

verus! {

/// Something that happens to a cluster. The log-replication scenario is not
/// among them: it may turn terms back.
pub ghost enum Move {
    Tick,
    Clock(u64),
    Chance(RandomView),
    Stop(int),
    Resume(int),
    ResumeAll,
    Restart(int),
    Timeout(int),
    Request(int),
    Drop(int),
    Spread,
    Align,
}

impl Sim {
    /// `mv` has happened.
    pub open spec fn made(self, mv: Move) -> Sim {
        match mv {
            Move::Tick => self.updated(),
            Move::Clock(time) => Sim { model: self.model.at_time(time), ..self },
            Move::Chance(rng) => Sim { rng, ..self },
            Move::Stop(i) => self.stopped(i),
            Move::Resume(i) => self.resumed(i),
            Move::ResumeAll => self.all_resumed(self.model.servers.len()),
            Move::Restart(i) => self.restarted(i),
            Move::Timeout(i) => self.timed_out(i),
            Move::Request(i) => self.requested(i),
            Move::Drop(i) => Sim { model: self.model.message_dropped(i), ..self },
            Move::Spread => Sim { model: self.model.timers_spread(), ..self },
            Move::Align => Sim { model: self.model.timers_aligned(), ..self },
        }
    }

    /// `mv` can happen.
    pub open spec fn can_make(self, mv: Move) -> bool {
        match mv {
            Move::Tick => self.can_update(),
            Move::Stop(i) | Move::Resume(i) | Move::Restart(i) => 0 <= i
                < self.model.servers.len(),
            Move::Timeout(i) => 0 <= i < self.model.servers.len() && self.server(i).term
                < u64::MAX,
            Move::Request(i) => 0 <= i < self.model.servers.len() && self.server(i).log.len() + 1
                < usize::MAX,
            _ => true,
        }
    }

    /// All of `moves` have happened, in their order.
    pub open spec fn run(self, moves: Seq<Move>) -> Sim
        decreases moves.len(),
    {
        if moves.len() == 0 {
            self
        } else {
            self.run(moves.drop_last()).made(moves.last())
        }
    }

    /// All of `moves` can happen, in their order.
    pub open spec fn can_run(self, moves: Seq<Move>) -> bool
        decreases moves.len(),
    {
        moves.len() == 0 || (self.can_run(moves.drop_last()) && self.run(
            moves.drop_last(),
        ).can_make(moves.last()))
    }
}

/// A run leads on from each of its moments.
proof fn lemma_can_run_on(w: Sim, moves: Seq<Move>, k: int)
    requires
        w.can_run(moves),
        0 <= k < moves.len(),
    ensures
        w.can_run(moves.take(k)),
        w.can_run(moves.drop_last()),
        moves.drop_last().take(k) == moves.take(k),
    decreases moves.len(),
{
    assert(moves.drop_last().take(k) =~= moves.take(k));
    if k < moves.len() - 1 {
        lemma_can_run_on(w, moves.drop_last(), k);
    } else {
        assert(moves.take(k) =~= moves.drop_last());
    }
}

// ----- terms and votes -----

/// The server goes by the same name; its term and commit index have not gone
/// back, and its vote stands if it is in the same term.
pub open spec fn stands_by(s: ServerView, t: ServerView) -> bool {
    &&& t.id == s.id
    &&& t.term >= s.term
    &&& t.commit_index >= s.commit_index
    &&& t.term == s.term && s.voted_for is Some ==> t.voted_for == s.voted_for
}

/// The servers are the same, and all stand by what they were.
pub open spec fn all_stand_by(m: ModelView, n: ModelView) -> bool {
    &&& n.servers.len() == m.servers.len()
    &&& forall|i: int|
        #![trigger m.servers[i]]
        #![trigger n.servers[i]]
        0 <= i < m.servers.len() ==> stands_by(m.servers[i], n.servers[i])
}

proof fn lemma_all_resumed_stand_by(w: Sim, n: nat)
    requires
        n <= w.model.servers.len(),
    ensures
        all_stand_by(w.model, w.all_resumed(n).model),
    decreases n,
{
    if n > 0 {
        lemma_all_resumed_stand_by(w, (n - 1) as nat);
        let v = w.all_resumed((n - 1) as nat);
        assert forall|i: int|
            #![trigger w.model.servers[i]]
            #![trigger v.resumed(n - 1).model.servers[i]]
            0 <= i < w.model.servers.len() implies stands_by(
            w.model.servers[i],
            v.resumed(n - 1).model.servers[i],
        ) by {
            assert(stands_by(w.model.servers[i], v.model.servers[i]));
        }
    }
}

proof fn lemma_made_stands_by(w: Sim, mv: Move)
    requires
        w.can_make(mv),
    ensures
        all_stand_by(w.model, w.made(mv).model),
{
    match mv {
        Move::Tick => {
            law_tick_goes_on(w);
            assert forall|i: int|
                #![trigger w.model.servers[i]]
                #![trigger w.updated().model.servers[i]]
                0 <= i < w.model.servers.len() implies stands_by(
                w.model.servers[i],
                w.updated().model.servers[i],
            ) by {
                assert(goes_on(w.model.collected().servers[i], w.updated().model.servers[i]));
            }
        },
        Move::ResumeAll => lemma_all_resumed_stand_by(w, w.model.servers.len()),
        _ => {},
    }
}

proof fn lemma_run_stands_by(w: Sim, moves: Seq<Move>, k: int)
    requires
        w.can_run(moves),
        0 <= k <= moves.len(),
    ensures
        all_stand_by(w.run(moves.take(k)).model, w.run(moves).model),
    decreases moves.len(),
{
    let a = w.run(moves.take(k)).model;
    if k == moves.len() {
        assert(moves.take(k) =~= moves);
    } else {
        lemma_can_run_on(w, moves, k);
        lemma_run_stands_by(w, moves.drop_last(), k);
        let v = w.run(moves.drop_last());
        let n = w.run(moves).model;
        lemma_made_stands_by(v, moves.last());
        assert forall|i: int|
            #![trigger a.servers[i]]
            #![trigger n.servers[i]]
            0 <= i < a.servers.len() implies stands_by(a.servers[i], n.servers[i]) by {
            assert(stands_by(a.servers[i], v.model.servers[i]));
            assert(stands_by(v.model.servers[i], n.servers[i]));
        }
    }
}

/// Over a whole run a server's term never goes back, and it votes at most once
/// in a term, however often it is restarted: the vote that it has given by the
/// time `k` moves have been made is the one that it has later in the same term.
pub proof fn law_one_vote_per_term(w: Sim, moves: Seq<Move>, k: int, i: int)
    requires
        w.can_run(moves),
        0 <= k <= moves.len(),
        0 <= i < w.run(moves.take(k)).model.servers.len(),
    ensures
        w.run(moves).server(i).term >= w.run(moves.take(k)).server(i).term,
        w.run(moves).server(i).term == w.run(moves.take(k)).server(i).term && w.run(
            moves.take(k),
        ).server(i).voted_for is Some ==> w.run(moves).server(i).voted_for == w.run(
            moves.take(k),
        ).server(i).voted_for,
{
    lemma_run_stands_by(w, moves, k);
    let s = w.run(moves.take(k)).model.servers[i];
    assert(stands_by(s, w.run(moves).model.servers[i]));
}

// ----- consensus -----

proof fn lemma_recorded_resumed(w: Sim, n: nat, h: Annals)
    requires
        w.model.recorded(h, Seq::empty()),
        n <= w.model.servers.len(),
    ensures
        w.all_resumed(n).model.recorded(h, Seq::empty()),
        w.all_resumed(n).model.servers.len() == w.model.servers.len(),
    decreases n,
{
    if n > 0 {
        lemma_recorded_resumed(w, (n - 1) as nat, h);
        let v = w.all_resumed((n - 1) as nat);
        lemma_recorded_leave(v.model, n - 1, v.resumed(n - 1).server(n - 1), h);
    }
}

proof fn lemma_recorded_made(w: Sim, mv: Move, h: Annals) -> (n: Annals)
    requires
        w.can_make(mv),
        w.model.recorded(h, Seq::empty()),
    ensures
        w.made(mv).model.recorded(n, Seq::empty()),
        h.leads_to(n),
{
    let m = w.model;
    match mv {
        Move::Tick => lemma_recorded_updated(w, h),
        Move::Clock(time) => {
            lemma_alike_at_time(m, time);
            lemma_recorded_alike(m, m.at_time(time), h);
            h
        },
        Move::Chance(_) => h,
        Move::Stop(i) => {
            lemma_recorded_leave(m, i, m.stopped(i).servers[i], h);
            h
        },
        Move::Resume(i) => {
            lemma_recorded_leave(m, i, w.resumed(i).server(i), h);
            h
        },
        Move::ResumeAll => {
            lemma_recorded_resumed(w, m.servers.len(), h);
            h
        },
        Move::Restart(i) => {
            lemma_recorded_leave(m, i, m.stopped(i).servers[i], h);
            lemma_recorded_leave(m.stopped(i), i, w.restarted(i).server(i), h);
            h
        },
        Move::Timeout(i) => {
            let t = ServerView { state: ServerState::Follower, election_alarm: 0, ..w.server(i) };
            lemma_recorded_leave(m, i, t, h);
            lemma_recorded_election_start(w.with(i, t), i, h, Seq::empty())
        },
        Move::Request(i) => lemma_recorded_request(m, i, h),
        Move::Drop(i) => {
            lemma_alike_dropped(m, i);
            lemma_recorded_alike(m, m.message_dropped(i), h);
            h
        },
        Move::Spread => {
            lemma_alike_retimed(m);
            lemma_recorded_alike(m, m.timers_spread(), h);
            h
        },
        Move::Align => {
            lemma_alike_retimed(m);
            lemma_recorded_alike(m, m.timers_aligned(), h);
            h
        },
    }
}

/// The annals of a run, at the moment after `k` moves and at its end.
proof fn lemma_recorded_run(w: Sim, moves: Seq<Move>, k: int) -> (r: (Annals, Annals))
    requires
        w.can_run(moves),
        w.model.consistent(),
        0 <= k <= moves.len(),
    ensures
        w.run(moves.take(k)).model.recorded(r.0, Seq::empty()),
        w.run(moves).model.recorded(r.1, Seq::empty()),
        r.0.leads_to(r.1),
    decreases moves.len(),
{
    if moves.len() == 0 {
        let h = choose|h: Annals| #[trigger] w.model.recorded(h, Seq::empty());
        assert(moves.take(k) =~= moves);
        (h, h)
    } else if k == moves.len() {
        assert(moves.take(k) =~= moves);
        let (_, h) = lemma_recorded_run(w, moves.drop_last(), 0);
        let n = lemma_recorded_made(w.run(moves.drop_last()), moves.last(), h);
        (n, n)
    } else {
        lemma_can_run_on(w, moves, k);
        let (a, h) = lemma_recorded_run(w, moves.drop_last(), k);
        let n = lemma_recorded_made(w.run(moves.drop_last()), moves.last(), h);
        a.lemma_leads_to_transitive(h, n);
        (a, n)
    }
}

/// A run keeps a cluster consistent.
pub proof fn law_run_keeps_consistent(w: Sim, moves: Seq<Move>)
    requires
        w.can_run(moves),
        w.model.consistent(),
    ensures
        w.run(moves).model.consistent(),
{
    let (a, h) = lemma_recorded_run(w, moves, 0);
    assert(w.run(moves).model.recorded(h, Seq::empty()));
}

/// Over a whole run a term has at most one leader: who leads it after `k`
/// moves is who leads it whenever anybody does later on.
pub proof fn law_one_leader_per_term_ever(w: Sim, moves: Seq<Move>, k: int, i: int, j: int)
    requires
        w.can_run(moves),
        w.model.consistent(),
        0 <= k <= moves.len(),
        0 <= i < w.run(moves.take(k)).model.servers.len(),
        0 <= j < w.run(moves).model.servers.len(),
        w.run(moves.take(k)).server(i).state == ServerState::Leader,
        w.run(moves).server(j).state == ServerState::Leader,
        w.run(moves.take(k)).server(i).term == w.run(moves).server(j).term,
    ensures
        i == j,
{
    let (a, h) = lemma_recorded_run(w, moves, k);
    let m = w.run(moves.take(k)).model;
    let n = w.run(moves).model;
    lemma_run_stands_by(w, moves, k);
    assert(a.show(m.servers[i]));
    assert(h.show(n.servers[j]));
    assert(a.led(m.servers[i].term));
    assert(stands_by(m.servers[i], n.servers[i]));
    assert(n.servers[i].id == n.servers[j].id);
    assert(n.acquainted());
}

/// Over a whole run no committed entry is lost or changed: what server `i`
/// takes as committed after `k` moves is what any server takes as committed
/// there at the end.
pub proof fn law_committed_once_committed_for_good(
    w: Sim,
    moves: Seq<Move>,
    k: int,
    i: int,
    j: int,
    c: int,
)
    requires
        w.can_run(moves),
        w.model.consistent(),
        0 <= k <= moves.len(),
        0 <= i < w.run(moves.take(k)).model.servers.len(),
        0 <= j < w.run(moves).model.servers.len(),
        0 <= c <= w.run(moves.take(k)).server(i).commit_index,
        c <= w.run(moves).server(j).commit_index,
    ensures
        w.run(moves.take(k)).server(i).log.take(c) == w.run(moves).server(j).log.take(c),
        w.run(moves).server(i).commit_index >= w.run(moves.take(k)).server(i).commit_index,
{
    let (a, h) = lemma_recorded_run(w, moves, k);
    lemma_run_stands_by(w, moves, k);
    let s = w.run(moves.take(k)).model.servers[i];
    let t = w.run(moves).model.servers[j];
    assert(a.show(s) && h.show(t));
    assert(stands_by(s, w.run(moves).model.servers[i]));
    lemma_covered_later(a, h, s.log, s.commit_index as int, s.term);
    lemma_covered_agree(
        h,
        s.log,
        s.commit_index as int,
        s.term,
        t.log,
        t.commit_index as int,
        t.term,
        c,
    );
}

} // verus!
