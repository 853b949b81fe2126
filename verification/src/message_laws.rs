//! Laws of messages: what each message does to the server that it reaches, and
//! what is answered, in terms of nothing but the fields of servers and messages.

use crate::cluster_laws::{
    law_conflict_is_overwritten, law_merged_log_holds_the_entries,
    law_merging_again_changes_nothing,
};
use crate::conduct_laws::{
    end_term, greater_of, law_moments_are_picked, moves_alone, moves_and_sends, posted, set_anew,
};
use crate::protocol::{merged, term_at, BodyView, EntryView, MessageView, ServerView, Sim};
use crate::raft::ServerState;
use crate::util::INF;
use vstd::prelude::*;

verus! {

/// What a server that is up and hears of `term` becomes before anything else:
/// if its own term is an earlier one, it follows in the new one, has not voted
/// in it yet, and has a timer that runs. Nothing else of it changes.
pub open spec fn hears(s: ServerView, t: ServerView, now: u64, term: u64, k: u64) -> bool {
    if s.term < term {
        &&& t == (ServerView {
            term,
            state: ServerState::Follower,
            voted_for: None,
            election_alarm: t.election_alarm,
            ..s
        })
        &&& if s.election_alarm <= now || s.election_alarm == INF {
            set_anew(t.election_alarm, now, k)
        } else {
            t.election_alarm == s.election_alarm
        }
    } else {
        t == s
    }
}

/// Hearing of `term` makes the server draw a new timer.
pub open spec fn redraws(s: ServerView, now: u64, term: u64) -> bool {
    s.term < term && (s.election_alarm <= now || s.election_alarm == INF)
}

/// A server that steps down follows in the given term, has not voted in it yet,
/// and has a timer that runs; nothing else changes.
pub proof fn law_stepping_down(w: Sim, si: int, term: u64)
    requires
        0 <= si < w.model.servers.len(),
    ensures
        ({
            let n = w.step_down(si, term);
            let s = w.model.servers[si];
            let t = n.model.servers[si];
            let now = w.model.time;
            &&& moves_alone(w, n, si)
            &&& t == (ServerView {
                term,
                state: ServerState::Follower,
                voted_for: None,
                election_alarm: t.election_alarm,
                ..s
            })
            &&& if s.election_alarm <= now || s.election_alarm == INF {
                set_anew(t.election_alarm, now, w.rng.draw()) && n.rng == w.rng.next()
            } else {
                t.election_alarm == s.election_alarm && n.rng == w.rng
            }
        }),
{
    law_moments_are_picked(w.model.time, w.rng.draw());
    let n = w.step_down(si, term);
    assert(n.model.servers =~= w.model.servers.update(si, n.model.servers[si]));
}

/// A message that is put on its way joins the others at the back, bears what it
/// was given and the time, and takes as long as the network allows.
pub proof fn law_sending(w: Sim, from: u32, to: u32, term: u64, body: BodyView)
    ensures
        ({
            let n = w.sent(from, to, term, body);
            let msg = n.model.messages[n.model.messages.len() - 1];
            &&& n.model.time == w.model.time && n.model.servers == w.model.servers
            &&& n.model.messages.drop_last() == w.model.messages
            &&& n.model.messages.len() == w.model.messages.len() + 1
            &&& msg.from == from && msg.to == to && msg.term == term && msg.body == body
            &&& posted(msg, w.model.time, w.rng.draw())
            &&& n.rng == w.rng.next()
        }),
{
    law_moments_are_picked(w.model.time, w.rng.draw());
    let n = w.sent(from, to, term, body);
    assert(n.model.messages.drop_last() =~= w.model.messages);
}

/// A server that is down takes no notice of any message.
pub proof fn law_stopped_server_hears_nothing(w: Sim, si: int, msg: MessageView)
    requires
        w.model.servers[si].state == ServerState::Stopped,
    ensures
        w.handle_message(si, msg) == w,
{
}

/// Whatever a message says, a server that is up is afterwards in the later of
/// its own and the message's term; it keeps its name, its peers and its log
/// but for entries that it is sent, and the other servers stay as they are.
pub proof fn law_terms_spread_with_messages(w: Sim, si: int, msg: MessageView)
    requires
        0 <= si < w.model.servers.len(),
        w.model.servers[si].state != ServerState::Stopped,
    ensures
        ({
            let n = w.handle_message(si, msg);
            let s = w.model.servers[si];
            let t = n.model.servers[si];
            &&& t.term == greater_of(s.term as int, msg.term as int)
            &&& t.id == s.id && t.peers == s.peers
            &&& msg.body !is AppendEntriesReq ==> t.log == s.log && t.commit_index
                == s.commit_index
            &&& s.term < msg.term ==> t.state == ServerState::Follower
            &&& n.model.time == w.model.time
            &&& n.model.servers == w.model.servers.update(si, t)
        }),
{
    let n = w.handle_message(si, msg);
    assert(n.model.servers =~= w.model.servers.update(si, n.model.servers[si]));
}

/// A candidate's log is at least as up to date as `log` when its last entry is
/// of a later term, whatever the lengths, or of the same term and the log is no
/// shorter.
pub open spec fn up_to_date(last_term: u64, last_index: usize, log: Seq<EntryView>) -> bool {
    last_term > end_term(log) || (last_term == end_term(log) && last_index >= log.len())
}

/// A server that is asked for its vote gives it exactly when it is not beyond
/// the candidate's term, has not voted for another in that term, and the
/// candidate's log is at least as up to date as its own. It answers in any case.
/// Only a vote that is given is noted, and sets the timer anew.
pub proof fn law_voting(w: Sim, si: int, msg: MessageView, last_term: u64, last_index: usize)
    requires
        0 <= si < w.model.servers.len(),
        w.model.servers[si].state != ServerState::Stopped,
        msg.body == (BodyView::RequestVoteReq {
            last_log_term: last_term,
            last_log_index: last_index,
        }),
    ensures
        ({
            let n = w.handle_message(si, msg);
            let s = w.model.servers[si];
            let t = n.model.servers[si];
            let now = w.model.time;
            let k = w.rng.draw();
            let drawn = if redraws(s, now, msg.term) {
                w.rng.next()
            } else {
                w.rng
            };
            let granted = s.term <= msg.term && (s.term < msg.term || s.voted_for is None
                || s.voted_for == Some(msg.from)) && up_to_date(last_term, last_index, s.log);
            let reply = n.model.messages[n.model.messages.len() - 1];
            &&& moves_and_sends(w, n, si)
            &&& reply.from == msg.to && reply.to == msg.from
            &&& reply.term == t.term && t.term == greater_of(s.term as int, msg.term as int)
            &&& reply.body == BodyView::RequestVoteRep { granted }
            &&& !granted ==> hears(s, t, now, msg.term, k) && posted(reply, now, drawn.draw())
                && n.rng == drawn.next()
            &&& granted ==> {
                &&& t.voted_for == Some(msg.from)
                &&& set_anew(t.election_alarm, now, drawn.draw())
                &&& t.state == if s.term < msg.term {
                    ServerState::Follower
                } else {
                    s.state
                }
                &&& t == (ServerView {
                    term: t.term,
                    voted_for: t.voted_for,
                    election_alarm: t.election_alarm,
                    state: t.state,
                    ..s
                })
                &&& posted(reply, now, drawn.next().draw())
                &&& n.rng == drawn.next().next()
            }
        }),
{
    let n = w.handle_message(si, msg);
    let now = w.model.time;
    law_moments_are_picked(now, w.rng.draw());
    law_moments_are_picked(now, w.rng.next().draw());
    law_moments_are_picked(now, w.rng.next().next().draw());
    assert(n.model.servers =~= w.model.servers.update(si, n.model.servers[si]));
    assert(n.model.messages.drop_last() =~= w.model.messages);
}

/// A candidate notes the answer to a request of its present term, be it a vote
/// or a refusal, and does not ask that peer again. Nobody else cares.
pub proof fn law_counting_votes(w: Sim, si: int, msg: MessageView, granted: bool)
    requires
        0 <= si < w.model.servers.len(),
        w.model.servers[si].state != ServerState::Stopped,
        msg.body == (BodyView::RequestVoteRep { granted }),
    ensures
        ({
            let n = w.handle_message(si, msg);
            let s = w.model.servers[si];
            let t = n.model.servers[si];
            &&& moves_alone(w, n, si)
            &&& n.rng == if redraws(s, w.model.time, msg.term) {
                w.rng.next()
            } else {
                w.rng
            }
            &&& if s.state == ServerState::Candidate && s.term == msg.term {
                t == ServerView {
                    vote_granted: s.vote_granted.insert(msg.from, granted),
                    rpc_due: s.rpc_due.insert(msg.from, INF),
                    ..s
                }
            } else {
                hears(s, t, w.model.time, msg.term, w.rng.draw())
            }
        }),
{
    law_moments_are_picked(w.model.time, w.rng.draw());
    let n = w.handle_message(si, msg);
    assert(n.model.servers =~= w.model.servers.update(si, n.model.servers[si]));
}

/// The first `d` of `entries` have counterparts of the same terms behind
/// `prev_index` of `log`.
pub open spec fn stand_there(
    log: Seq<EntryView>,
    prev_index: int,
    entries: Seq<EntryView>,
    d: int,
) -> bool {
    &&& prev_index + d <= log.len()
    &&& forall|j: int| 0 <= j < d ==> log[prev_index + j].term == (#[trigger] entries[j]).term
}

/// `t` is the log that `s` becomes when `entries` are to stand behind
/// `prev_index`: what comes before them stays; if their terms stand there
/// already, so does all the rest; else the log is cut where the first of them
/// differs, and they take its place from there on.
pub open spec fn takes_up(
    s: Seq<EntryView>,
    t: Seq<EntryView>,
    prev_index: int,
    entries: Seq<EntryView>,
) -> bool {
    &&& t.take(prev_index) == s.take(prev_index)
    &&& stand_there(t, prev_index, entries, entries.len() as int)
    &&& stand_there(s, prev_index, entries, entries.len() as int) ==> t == s
    &&& forall|d: int|
        0 <= d < entries.len() && #[trigger] stand_there(s, prev_index, entries, d)
            && !stand_there(s, prev_index, entries, d + 1) ==> t == s.take(prev_index + d)
            + entries.skip(d)
}

proof fn lemma_takes_up(s: Seq<EntryView>, prev_index: int, entries: Seq<EntryView>)
    requires
        0 <= prev_index <= s.len(),
        forall|j: int| 0 <= j < entries.len() ==> (#[trigger] entries[j]).term > 0,
    ensures
        takes_up(s, merged(s, prev_index, entries), prev_index, entries),
{
    let t = merged(s, prev_index, entries);
    law_merged_log_holds_the_entries(s, prev_index, entries);
    assert forall|j: int| 0 <= j < entries.len() implies t[prev_index + j].term == (
    #[trigger] entries[j]).term by {
        assert(term_at(t, prev_index + j + 1) == entries[j].term);
    }
    if stand_there(s, prev_index, entries, entries.len() as int) {
        law_merging_again_changes_nothing(s, prev_index, entries);
    }
    assert forall|d: int|
        0 <= d < entries.len() && #[trigger] stand_there(s, prev_index, entries, d)
            && !stand_there(s, prev_index, entries, d + 1) implies t == s.take(prev_index + d)
        + entries.skip(d) by {
        assert forall|j: int| 0 <= j < d implies term_at(s, prev_index + j + 1) == (
        #[trigger] entries.take(d)[j]).term by {
            assert(entries.take(d)[j] == entries[j]);
        }
        law_conflict_is_overwritten(s, prev_index, entries, d);
    }
}

/// Entries are placed one after the other. One whose place holds an entry of its
/// own term changes nothing; one that conflicts there cuts the log and comes to
/// its end; beyond the end every entry of a term is added, and one of no term is
/// not.
pub proof fn law_placing_entries(
    log: Seq<EntryView>,
    prev_index: int,
    entries: Seq<EntryView>,
    e: EntryView,
)
    requires
        0 <= prev_index,
    ensures
        merged(log, prev_index, Seq::empty()) == log,
        ({
            let s = merged(log, prev_index, entries);
            let at = prev_index + entries.len();
            merged(log, prev_index, entries.push(e)) == if at < s.len() {
                if s[at].term == e.term {
                    s
                } else {
                    s.take(at).push(e)
                }
            } else if e.term == 0 {
                s
            } else {
                s.push(e)
            }
        }),
{
    assert(entries.push(e).drop_last() =~= entries);
}

/// A server that hears from the leader of a term that is not behind its own
/// follows it, with its timer set anew. It takes up the entries exactly when
/// they stand at the beginning or its log has an entry of `prev_term` at
/// `prev_index`, however many entries follow there, and then commits as far as
/// the leader says. It answers in any case, and tells how far its log is now
/// known to match.
pub proof fn law_hearing_from_a_leader(
    w: Sim,
    si: int,
    msg: MessageView,
    prev_index: usize,
    prev_term: u64,
    entries: Seq<EntryView>,
    commit_index: usize,
)
    requires
        0 <= si < w.model.servers.len(),
        w.model.servers[si].state != ServerState::Stopped,
        msg.body == (BodyView::AppendEntriesReq { prev_index, prev_term, entries, commit_index }),
        prev_index + entries.len() <= usize::MAX,
    ensures
        ({
            let n = w.handle_message(si, msg);
            let s = w.model.servers[si];
            let t = n.model.servers[si];
            let now = w.model.time;
            let drawn = if redraws(s, now, msg.term) {
                w.rng.next()
            } else {
                w.rng
            };
            let agrees = prev_index == 0 || (prev_index <= s.log.len() && s.log[prev_index
                - 1].term == prev_term);
            let reply = n.model.messages[n.model.messages.len() - 1];
            &&& moves_and_sends(w, n, si)
            &&& reply.from == msg.to && reply.to == msg.from
            &&& reply.term == t.term && t.term == greater_of(s.term as int, msg.term as int)
            &&& reply.body == BodyView::AppendEntriesRep {
                success: s.term <= msg.term && agrees,
                match_index: if s.term <= msg.term && agrees {
                    (prev_index + entries.len()) as usize
                } else {
                    0
                },
            }
            &&& s.term > msg.term ==> t == s && n.rng == w.rng.next() && posted(
                reply,
                now,
                w.rng.draw(),
            )
            &&& s.term <= msg.term ==> {
                &&& t.state == ServerState::Follower
                &&& set_anew(t.election_alarm, now, drawn.draw())
                &&& posted(reply, now, drawn.next().draw())
                &&& n.rng == drawn.next().next()
                &&& t.voted_for == if s.term < msg.term {
                    None
                } else {
                    s.voted_for
                }
                &&& t == (ServerView {
                    term: t.term,
                    state: t.state,
                    voted_for: t.voted_for,
                    election_alarm: t.election_alarm,
                    log: t.log,
                    commit_index: t.commit_index,
                    ..s
                })
                &&& if agrees {
                    &&& t.log == merged(s.log, prev_index as int, entries)
                    &&& (forall|j: int| 0 <= j < entries.len() ==> (#[trigger] entries[j]).term > 0)
                        ==> takes_up(s.log, t.log, prev_index as int, entries)
                    &&& t.commit_index == greater_of(s.commit_index as int, commit_index as int)
                } else {
                    t.log == s.log && t.commit_index == s.commit_index
                }
            }
        }),
{
    let n = w.handle_message(si, msg);
    let s = w.model.servers[si];
    let now = w.model.time;
    law_moments_are_picked(now, w.rng.draw());
    law_moments_are_picked(now, w.rng.next().draw());
    law_moments_are_picked(now, w.rng.next().next().draw());
    assert(n.model.servers =~= w.model.servers.update(si, n.model.servers[si]));
    assert(n.model.messages.drop_last() =~= w.model.messages);
    if prev_index <= s.log.len() && forall|j: int|
        0 <= j < entries.len() ==> (#[trigger] entries[j]).term > 0 {
        lemma_takes_up(s.log, prev_index as int, entries);
    }
}

/// A leader notes the answer to a request of its present term: after a success
/// it knows the follower's log to match at least as far as before and as the
/// answer says, and goes on behind that; after a refusal it tries one entry
/// further to the front, but not before the first. Either way it may write
/// again at once. Nobody else cares.
pub proof fn law_noting_progress(
    w: Sim,
    si: int,
    msg: MessageView,
    success: bool,
    match_index: usize,
)
    requires
        0 <= si < w.model.servers.len(),
        w.model.servers[si].state != ServerState::Stopped,
        msg.body == (BodyView::AppendEntriesRep { success, match_index }),
        success ==> match_index < usize::MAX && w.model.servers[si].match_index.contains_key(
            msg.from,
        ),
    ensures
        ({
            let n = w.handle_message(si, msg);
            let s = w.model.servers[si];
            let t = n.model.servers[si];
            let p = msg.from;
            &&& moves_alone(w, n, si)
            &&& n.rng == if redraws(s, w.model.time, msg.term) {
                w.rng.next()
            } else {
                w.rng
            }
            &&& if s.state == ServerState::Leader && s.term == msg.term {
                &&& t.rpc_due == s.rpc_due.insert(p, 0)
                &&& t.next_index == s.next_index.insert(p, t.next_index[p])
                &&& t == (ServerView {
                    rpc_due: t.rpc_due,
                    next_index: t.next_index,
                    match_index: t.match_index,
                    ..s
                })
                &&& success ==> {
                    &&& t.match_index == s.match_index.insert(p, t.match_index[p])
                    &&& t.match_index[p] == greater_of(
                        s.match_index[p] as int,
                        match_index as int,
                    )
                    &&& t.next_index[p] == match_index + 1
                }
                &&& !success ==> {
                    &&& t.match_index == s.match_index
                    &&& t.next_index[p] == greater_of(s.next_index[p] - 1, 1)
                }
            } else {
                hears(s, t, w.model.time, msg.term, w.rng.draw())
            }
        }),
{
    law_moments_are_picked(w.model.time, w.rng.draw());
    let n = w.handle_message(si, msg);
    let s = w.model.servers[si];
    let t = n.model.servers[si];
    assert(n.model.servers =~= w.model.servers.update(si, t));
    if success {
        assert(s.match_index =~= s.match_index.insert(msg.from, s.match_index[msg.from]));
    }
}

/// A refused leader gets there in the end: as long as a follower refuses, the
/// next request comes one entry further to the front, until it stands at the
/// beginning, which nobody refuses.
pub proof fn law_refusals_lead_to_the_front(w: Sim, si: int, msg: MessageView)
    requires
        0 <= si < w.model.servers.len(),
        w.model.servers[si].state == ServerState::Leader,
        w.model.servers[si].term == msg.term,
        w.model.servers[si].next_index[msg.from] > 1,
        msg.body == (BodyView::AppendEntriesRep { success: false, match_index: 0 }),
    ensures
        w.handle_message(si, msg).model.servers[si].next_index[msg.from] + 1
            == w.model.servers[si].next_index[msg.from],
{
    law_noting_progress(w, si, msg, false, 0);
}

} // verus!
