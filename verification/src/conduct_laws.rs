//! Laws of conduct: what each rule makes a server do, in terms of nothing but
//! the fields of servers and messages.

use crate::protocol::{
    alarm, arrival, BodyView, EntryView, MessageView, ServerView, Sim,
};
use crate::quorum::{lemma_agreed, lemma_agreed_is};
use crate::raft::{
    ServerState, BATCH_SIZE, ELECTION_TIMEOUT, MAX_RPC_LATENCY, MIN_RPC_LATENCY, NUM_SERVERS,
    RPC_TIMEOUT,
};
use crate::util::{RandomView, INF, RANDOM_RANGE};
use vstd::prelude::*;

verus! {

// ----- chance -----

/// `t` is the moment that the draw `k` picks from those at least `low` and less
/// than `high` after `now`; the end of the clock stands for all that lie
/// beyond it.
pub open spec fn picked(t: u64, now: u64, low: int, high: int, k: u64) -> bool {
    if t < u64::MAX {
        (t - now - low) * RANDOM_RANGE <= k * (high - low) < (t - now - low + 1) * RANDOM_RANGE
    } else {
        k * (high - low) >= (u64::MAX - now - low) * RANDOM_RANGE
    }
}

/// `t` is an election timer that is set at `now` with the draw `k`: it runs for
/// one to two election timeouts.
pub open spec fn set_anew(t: u64, now: u64, k: u64) -> bool {
    picked(t, now, ELECTION_TIMEOUT as int, 2 * ELECTION_TIMEOUT, k)
}

/// A draw takes the word that was handed in last, or else the next one of the
/// source's own, without its eleven lowest bits; the word is then used up.
pub proof fn law_words_are_used_once(r: RandomView, word: u64)
    ensures
        ({
            let fed = RandomView { pool: r.pool.push(word), ..r };
            &&& fed.draw() == word >> 11u64
            &&& fed.next() == r
        }),
        r.pool.len() == 0 ==> r.next().pool.len() == 0 && r.draw() == r.next().seed >> 11u64,
        r.pool.len() == 0 && r.seed != 0 ==> r.next().seed != 0,
{
    assert(r.pool.push(word).drop_last() =~= r.pool);
    let x = r.seed;
    let a = x ^ (x << 13u64);
    let b = a ^ (a >> 7u64);
    let c = b ^ (b << 17u64);
    assert(x != 0 ==> a != 0) by (bit_vector)
        requires
            a == x ^ (x << 13u64),
    ;
    assert(a != 0 ==> b != 0) by (bit_vector)
        requires
            b == a ^ (a >> 7u64),
    ;
    assert(b != 0 ==> c != 0) by (bit_vector)
        requires
            c == b ^ (b << 17u64),
    ;
}

/// Election timers are picked evenly from one to two election timeouts, and
/// delays from what the network allows.
pub proof fn law_moments_are_picked(now: u64, k: u64)
    ensures
        set_anew(alarm(now, k), now, k),
        picked(arrival(now, k), now, MIN_RPC_LATENCY as int, MAX_RPC_LATENCY as int, k),
{
    let p = k * ELECTION_TIMEOUT;
    let q = k * (MAX_RPC_LATENCY - MIN_RPC_LATENCY);
    let e = p / (RANDOM_RANGE as int);
    let f = q / (RANDOM_RANGE as int);
    assert(e * RANDOM_RANGE <= p < (e + 1) * RANDOM_RANGE);
    assert(f * RANDOM_RANGE <= q < (f + 1) * RANDOM_RANGE);
}

/// Long before the end of the clock an election timer runs for at least one and
/// less than two election timeouts.
pub proof fn law_timer_is_set_ahead(t: u64, now: u64, k: u64)
    requires
        set_anew(t, now, k),
        k < RANDOM_RANGE,
        now + 2 * ELECTION_TIMEOUT < u64::MAX,
    ensures
        now + ELECTION_TIMEOUT <= t < now + 2 * ELECTION_TIMEOUT,
{
    assert(k * ELECTION_TIMEOUT < RANDOM_RANGE * ELECTION_TIMEOUT) by (nonlinear_arith)
        requires
            k < RANDOM_RANGE,
            ELECTION_TIMEOUT > 0,
    ;
}

/// How long things take, in microseconds, and how much they hold: a message
/// takes 10 to 15 milliseconds, an unanswered request is repeated after 50, a
/// timer runs for at least 100; of five servers three are a majority, and a
/// request carries one entry at most.
pub proof fn law_measures()
    ensures
        MIN_RPC_LATENCY == 10000,
        MAX_RPC_LATENCY == 15000,
        RPC_TIMEOUT == 50000,
        ELECTION_TIMEOUT == 100000,
        NUM_SERVERS == 5,
        BATCH_SIZE == 1,
        INF == u64::MAX / 2,
        RANDOM_RANGE == 0x20000000000000,
{
}

// ----- parts -----

/// The term of the last entry, or 0 of an empty log.
pub open spec fn end_term(log: Seq<EntryView>) -> u64 {
    if log.len() > 0 {
        log[log.len() - 1].term
    } else {
        0
    }
}

/// The later of two terms, or the greater of two indexes.
pub open spec fn greater_of(a: int, b: int) -> int {
    if a > b {
        a
    } else {
        b
    }
}

/// The message was sent at `now` with the draw `k`.
pub open spec fn posted(msg: MessageView, now: u64, k: u64) -> bool {
    &&& msg.send_time == now
    &&& picked(msg.recv_time, now, MIN_RPC_LATENCY as int, MAX_RPC_LATENCY as int, k)
}

/// `map` has an entry for each of `peers` and no other, and all hold `value`.
pub open spec fn uniform<T>(map: Map<u32, T>, peers: Seq<u32>, value: T) -> bool {
    forall|p: u32|
        #![trigger map.contains_key(p)]
        #![trigger peers.contains(p)]
        #![trigger map[p]]
        (map.contains_key(p) <==> peers.contains(p)) && (peers.contains(p) ==> map[p] == value)
}

/// A moment `delay` after `now`, or the end of the clock if that comes first.
pub open spec fn in_time(t: u64, now: u64, delay: int) -> bool {
    t == if now + delay < u64::MAX {
        now + delay
    } else {
        u64::MAX as int
    }
}

/// Only server `si` has moved, and nothing was sent.
pub open spec fn moves_alone(w: Sim, n: Sim, si: int) -> bool {
    &&& n.model.time == w.model.time
    &&& n.model.messages == w.model.messages
    &&& n.model.servers == w.model.servers.update(si, n.model.servers[si])
}

/// Only server `si` has moved, and one message was sent.
pub open spec fn moves_and_sends(w: Sim, n: Sim, si: int) -> bool {
    &&& n.model.time == w.model.time
    &&& n.model.messages.len() == w.model.messages.len() + 1
    &&& n.model.messages.drop_last() == w.model.messages
    &&& n.model.servers == w.model.servers.update(si, n.model.servers[si])
}

// ----- rules -----

/// A server stands for election exactly when it follows or is a candidate and
/// its timer has run out: in the next term, with its own vote, a new timer and
/// nothing known of its peers. Its log and what it has committed stay.
pub proof fn law_standing_for_election(w: Sim, si: int)
    requires
        0 <= si < w.model.servers.len(),
        w.model.servers[si].term < u64::MAX,
    ensures
        ({
            let n = w.start_new_election(si);
            let s = w.model.servers[si];
            let t = n.model.servers[si];
            let stands = (s.state == ServerState::Follower || s.state == ServerState::Candidate)
                && s.election_alarm <= w.model.time;
            &&& moves_alone(w, n, si)
            &&& !stands ==> n == w
            &&& stands ==> {
                &&& t.state == ServerState::Candidate
                &&& t.term == s.term + 1
                &&& t.voted_for == Some(s.id)
                &&& set_anew(t.election_alarm, w.model.time, w.rng.draw())
                &&& uniform(t.vote_granted, s.peers, false)
                &&& uniform(t.match_index, s.peers, 0usize)
                &&& uniform(t.next_index, s.peers, 1usize)
                &&& uniform(t.rpc_due, s.peers, 0u64)
                &&& uniform(t.heartbeat_due, s.peers, 0u64)
                &&& t.id == s.id && t.peers == s.peers
                &&& t.log == s.log && t.commit_index == s.commit_index
                &&& n.rng == w.rng.next()
            }
        }),
{
    law_moments_are_picked(w.model.time, w.rng.draw());
    let n = w.start_new_election(si);
    assert(n.model.servers =~= w.model.servers.update(si, n.model.servers[si]));
}

/// A candidate asks a peer for its vote exactly when the peer is due to be
/// asked, and says how its own log ends; it then waits for an answer.
pub proof fn law_asking_for_votes(w: Sim, si: int, peer: u32)
    requires
        0 <= si < w.model.servers.len(),
        w.model.servers[si].log.len() <= usize::MAX,
    ensures
        ({
            let n = w.send_request_vote(si, peer);
            let s = w.model.servers[si];
            let t = n.model.servers[si];
            let asks = s.state == ServerState::Candidate && s.rpc_due[peer] <= w.model.time;
            &&& !asks ==> n == w
            &&& asks ==> {
                let msg = n.model.messages[n.model.messages.len() - 1];
                &&& moves_and_sends(w, n, si)
                &&& in_time(t.rpc_due[peer], w.model.time, RPC_TIMEOUT as int)
                &&& t == (ServerView { rpc_due: s.rpc_due.insert(peer, t.rpc_due[peer]), ..s })
                &&& posted(msg, w.model.time, w.rng.draw())
                &&& n.rng == w.rng.next()
                &&& msg.from == s.id && msg.to == peer && msg.term == s.term
                &&& msg.body == BodyView::RequestVoteReq {
                    last_log_term: end_term(s.log),
                    last_log_index: s.log.len() as usize,
                }
            }
        }),
{
    law_moments_are_picked(w.model.time, w.rng.draw());
    let n = w.send_request_vote(si, peer);
    assert(n.model.servers =~= w.model.servers.update(si, n.model.servers[si]));
    if n != w {
        assert(n.model.messages.drop_last() =~= w.model.messages);
    }
}

/// A candidate leads exactly when it and those who have granted it their vote
/// are a majority. A new leader takes all logs to end where its own does, owes
/// everybody word at once, and has no election timer.
pub proof fn law_taking_office(w: Sim, si: int)
    requires
        0 <= si < w.model.servers.len(),
        w.model.servers[si].log.len() < usize::MAX,
    ensures
        ({
            let n = w.become_leader(si);
            let s = w.model.servers[si];
            let t = n.model.servers[si];
            let votes = Set::new(
                |p: u32| s.vote_granted.contains_key(p) && s.vote_granted[p],
            );
            let elected = s.state == ServerState::Candidate && 2 * (votes.len() + 1)
                > NUM_SERVERS;
            &&& moves_alone(w, n, si)
            &&& n.rng == w.rng
            &&& !elected ==> n == w
            &&& elected ==> {
                &&& t.state == ServerState::Leader
                &&& uniform(t.next_index, s.peers, (s.log.len() + 1) as usize)
                &&& uniform(t.rpc_due, s.peers, INF)
                &&& uniform(t.heartbeat_due, s.peers, 0u64)
                &&& t.election_alarm == INF
                &&& t.id == s.id && t.peers == s.peers
                &&& t.term == s.term && t.voted_for == s.voted_for
                &&& t.log == s.log && t.commit_index == s.commit_index
                &&& t.vote_granted == s.vote_granted && t.match_index == s.match_index
            }
        }),
{
    let s = w.model.servers[si];
    let n = w.become_leader(si);
    assert(s.granters() =~= Set::new(
        |p: u32| s.vote_granted.contains_key(p) && s.vote_granted[p],
    ));
    assert(n.model.servers =~= w.model.servers.update(si, n.model.servers[si]));
}

/// A leader writes to a peer exactly when it owes it a heartbeat, or when it has
/// entries for it and is not waiting for an answer.
pub proof fn law_writing_to_followers(w: Sim, si: int, peer: u32)
    requires
        0 <= si < w.model.servers.len(),
        w.model.servers[si].state == ServerState::Leader ==> {
            &&& 1 <= w.model.servers[si].next_index[peer]
            &&& w.model.servers[si].next_index[peer] <= w.model.servers[si].log.len() + 1
            &&& w.model.servers[si].log.len() <= usize::MAX
        },
    ensures
        ({
            let n = w.send_append_entries(si, peer);
            let s = w.model.servers[si];
            let t = n.model.servers[si];
            let now = w.model.time;
            let next = s.next_index[peer];
            let writes = s.state == ServerState::Leader && (s.heartbeat_due[peer] <= now || (next
                <= s.log.len() && s.rpc_due[peer] <= now));
            &&& !writes ==> n == w
            &&& writes ==> {
                let msg = n.model.messages[n.model.messages.len() - 1];
                &&& moves_and_sends(w, n, si)
                &&& in_time(t.rpc_due[peer], now, RPC_TIMEOUT as int)
                &&& in_time(t.heartbeat_due[peer], now, ELECTION_TIMEOUT as int / 2)
                &&& t == (ServerView {
                    rpc_due: s.rpc_due.insert(peer, t.rpc_due[peer]),
                    heartbeat_due: s.heartbeat_due.insert(peer, t.heartbeat_due[peer]),
                    ..s
                })
                &&& posted(msg, now, w.rng.draw())
                &&& n.rng == w.rng.next()
                &&& msg.from == s.id && msg.to == peer && msg.term == s.term
                &&& tells(s, peer, msg.body)
            }
        }),
{
    law_moments_are_picked(w.model.time, w.rng.draw());
    let s = w.model.servers[si];
    let n = w.send_append_entries(si, peer);
    assert(n.model.servers =~= w.model.servers.update(si, n.model.servers[si]));
    if n != w {
        assert(n.model.messages.drop_last() =~= w.model.messages);
        let msg = n.model.messages[n.model.messages.len() - 1];
        assert(msg.body == s.entries_for(peer));
        assert(tells(s, peer, msg.body));
    }
}

/// `body` is what leader `s` has to tell `peer`: the entries that are next for
/// it, one batch at most, and none as long as it is not known that the logs
/// agree up to there; what comes before them; and how far of what it tells is
/// committed.
pub open spec fn tells(s: ServerView, peer: u32, body: BodyView) -> bool {
    match body {
        BodyView::AppendEntriesReq { prev_index, prev_term, entries, commit_index } => {
            let next = s.next_index[peer];
            let rest = s.log.len() + 1 - next;
            &&& prev_index + 1 == next
            &&& prev_term == if prev_index == 0 {
                0
            } else {
                s.log[prev_index - 1].term
            }
            &&& entries.len() == if s.match_index[peer] + 1 < next {
                0
            } else if rest < BATCH_SIZE {
                rest
            } else {
                BATCH_SIZE as int
            }
            &&& forall|k: int|
                0 <= k < entries.len() ==> #[trigger] entries[k] == s.log[prev_index + k]
            &&& commit_index == if s.commit_index < prev_index + entries.len() {
                s.commit_index as int
            } else {
                prev_index + entries.len()
            }
        },
        _ => false,
    }
}

/// A server that has just taken office tells each peer first how its own log
/// ends, without entries.
pub proof fn law_first_word_of_a_leader(w: Sim, si: int, peer: u32)
    requires
        0 <= si < w.model.servers.len(),
        w.model.servers[si].log.len() < usize::MAX,
        w.model.servers[si].state == ServerState::Candidate,
        w.become_leader(si).model.servers[si].state == ServerState::Leader,
        w.model.servers[si].peers.contains(peer),
    ensures
        ({
            let s = w.model.servers[si];
            let n = w.become_leader(si).send_append_entries(si, peer);
            let msg = n.model.messages[n.model.messages.len() - 1];
            &&& n.model.messages.len() == w.model.messages.len() + 1
            &&& msg.from == s.id && msg.to == peer && msg.term == s.term
            &&& msg.body matches BodyView::AppendEntriesReq { prev_index, prev_term, entries, .. }
            &&& prev_index == s.log.len()
            &&& prev_term == end_term(s.log)
            &&& entries.len() == 0
        }),
{
    let v = w.become_leader(si);
    law_taking_office(w, si);
    law_writing_to_followers(v, si, peer);
    let l = v.model.servers[si];
    assert(l.next_index.contains_key(peer) && l.next_index[peer] == l.log.len() + 1);
    assert(l.heartbeat_due.contains_key(peer) && l.heartbeat_due[peer] == 0);
}

/// How many replicas, the server's own counted, end before `index` as far as
/// the server knows.
pub open spec fn behind(s: ServerView, index: int) -> nat {
    Set::new(
        |p: u32| s.match_index.contains_key(p) && s.match_index[p] < index,
    ).len() + if s.log.len() < index {
        1nat
    } else {
        0nat
    }
}

/// A leader commits up to `index` when that is the last index that all replicas
/// but a minority reach and its entry there is of its own term; it never takes
/// back what it has committed. Nobody else commits of their own accord.
pub proof fn law_committing(w: Sim, si: int, index: int)
    requires
        0 <= si < w.model.servers.len(),
        w.model.servers[si].match_index.dom().finite(),
        w.model.servers[si].log.len() <= usize::MAX,
        0 <= index,
        2 * behind(w.model.servers[si], index) < NUM_SERVERS,
        2 * behind(w.model.servers[si], index + 1) > NUM_SERVERS,
    ensures
        ({
            let n = w.advance_commit_index(si);
            let s = w.model.servers[si];
            let t = n.model.servers[si];
            let own = if 1 <= index <= s.log.len() {
                s.log[index - 1].term == s.term
            } else {
                s.term == 0
            };
            &&& moves_alone(w, n, si)
            &&& n.rng == w.rng
            &&& t == (ServerView { commit_index: t.commit_index, ..s })
            &&& s.state == ServerState::Leader && own && index <= usize::MAX ==> t.commit_index
                == greater_of(s.commit_index as int, index)
            &&& s.state != ServerState::Leader || !own ==> t.commit_index == s.commit_index
        }),
{
    let s = w.model.servers[si];
    assert forall|i: int| #[trigger] behind(s, i) == s.trailing(i) by {
        assert(s.match_index.dom().filter(|p: u32| s.match_index[p] < i) =~= Set::new(
            |p: u32| s.match_index.contains_key(p) && s.match_index[p] < i,
        ));
    }
    assert(s.trailing(index) == behind(s, index));
    assert(s.trailing(index + 1) == behind(s, index + 1));
    assert(s.agreed_upto(index));
    lemma_agreed_is(s, index);
    let n = w.advance_commit_index(si);
    assert(n.model.servers =~= w.model.servers.update(si, n.model.servers[si]));
}

/// There is always such an index: [`law_committing`] says what every leader
/// with records of enough peers commits.
pub proof fn law_some_index_is_agreed(s: ServerView) -> (index: int)
    requires
        s.match_index.dom().finite(),
        2 * (s.match_index.dom().len() + 1) > NUM_SERVERS,
        s.log.len() <= usize::MAX,
    ensures
        0 <= index <= usize::MAX,
        2 * behind(s, index) < NUM_SERVERS,
        2 * behind(s, index + 1) > NUM_SERVERS,
{
    lemma_agreed(s);
    let index = s.agreed();
    assert forall|i: int| #[trigger] behind(s, i) == s.trailing(i) by {
        assert(s.match_index.dom().filter(|p: u32| s.match_index[p] < i) =~= Set::new(
            |p: u32| s.match_index.contains_key(p) && s.match_index[p] < i,
        ));
    }
    assert(s.trailing(index) == behind(s, index));
    assert(s.trailing(index + 1) == behind(s, index + 1));
    index
}

} // verus!
