//! The Raft protocol as mathematics: what a cluster is, and what each rule,
//! message handler and user action turns it into.
//!
//! A [`Sim`] is a cluster together with the source of chance that its timers
//! and network delays are drawn from. Each transition is a function from one
//! `Sim` to the next; the executable simulation is proved to compute it.

use crate::raft::{
    ServerState, BATCH_SIZE, ELECTION_TIMEOUT, MAX_RPC_LATENCY, MIN_RPC_LATENCY, NUM_SERVERS,
    RPC_TIMEOUT,
};
use crate::util::{RandomView, INF, RANDOM_RANGE};
use vstd::prelude::*;

verus! {

/// A log entry.
pub ghost struct EntryView {
    pub term: u64,
    pub value: Seq<char>,
}

/// What a message says.
#[verifier::ext_equal]
pub ghost enum BodyView {
    RequestVoteReq { last_log_term: u64, last_log_index: usize },
    RequestVoteRep { granted: bool },
    AppendEntriesReq {
        prev_index: usize,
        prev_term: u64,
        entries: Seq<EntryView>,
        commit_index: usize,
    },
    AppendEntriesRep { success: bool, match_index: usize },
}

/// A message on its way.
#[verifier::ext_equal]
pub ghost struct MessageView {
    pub from: u32,
    pub to: u32,
    pub term: u64,
    pub send_time: u64,
    pub recv_time: u64,
    pub body: BodyView,
}

/// A server.
#[verifier::ext_equal]
pub ghost struct ServerView {
    pub id: u32,
    pub peers: Seq<u32>,
    pub state: ServerState,
    pub term: u64,
    pub voted_for: Option<u32>,
    pub log: Seq<EntryView>,
    pub commit_index: usize,
    pub election_alarm: u64,
    pub vote_granted: Map<u32, bool>,
    pub match_index: Map<u32, usize>,
    pub next_index: Map<u32, usize>,
    pub rpc_due: Map<u32, u64>,
    pub heartbeat_due: Map<u32, u64>,
}

/// A cluster and its network at one moment.
#[verifier::ext_equal]
pub ghost struct ModelView {
    pub time: u64,
    pub servers: Seq<ServerView>,
    pub messages: Seq<MessageView>,
}

/// A cluster with its source of chance.
#[verifier::ext_equal]
pub ghost struct Sim {
    pub model: ModelView,
    pub rng: RandomView,
}

// ----- clocks -----

/// The moment `delay` after `time`; the clock stops at its end.
pub open spec fn after(time: u64, delay: int) -> u64 {
    if time + delay > u64::MAX {
        u64::MAX
    } else {
        (time + delay) as u64
    }
}

/// The part of `range` that the draw `k` stands for.
pub open spec fn share(k: u64, range: u64) -> int {
    (k * range) / (RANDOM_RANGE as int)
}

/// When an election timer that is set now runs out: between one and two
/// election timeouts from now.
pub open spec fn alarm(now: u64, k: u64) -> u64 {
    after(now, ELECTION_TIMEOUT + share(k, ELECTION_TIMEOUT))
}

/// When a message that is sent now arrives.
pub open spec fn arrival(now: u64, k: u64) -> u64 {
    after(now, MIN_RPC_LATENCY + share(k, (MAX_RPC_LATENCY - MIN_RPC_LATENCY) as u64))
}

// ----- parts of a server -----

/// `value` for each of `peers`.
pub open spec fn for_all_peers<T>(peers: Seq<u32>, value: T) -> Map<u32, T> {
    Map::new(|p: u32| peers.contains(p), |p: u32| value)
}

/// Term of the log entry at 1-based `index`, or 0 if out of range.
pub open spec fn term_at(log: Seq<EntryView>, index: int) -> u64 {
    if index < 1 || index > log.len() {
        0
    } else {
        log[index - 1].term
    }
}

/// `log` after the entry `e` has been placed at 1-based `index`: an entry of
/// the same term stays, a conflicting one goes with all that follow it.
pub open spec fn placed(log: Seq<EntryView>, index: int, e: EntryView) -> Seq<EntryView> {
    if term_at(log, index) == e.term {
        log
    } else if index - 1 < log.len() {
        log.take(index - 1).push(e)
    } else {
        log.push(e)
    }
}

/// `log` after `entries` have been placed, one by one, behind `prev_index`.
pub open spec fn merged(log: Seq<EntryView>, prev_index: int, entries: Seq<EntryView>) -> Seq<
    EntryView,
>
    decreases entries.len(),
{
    if entries.len() == 0 {
        log
    } else {
        placed(
            merged(log, prev_index, entries.drop_last()),
            prev_index + entries.len(),
            entries.last(),
        )
    }
}

impl ServerView {
    /// A server that has just been set up.
    pub open spec fn fresh(id: u32, peers: Seq<u32>, alarm: u64) -> ServerView {
        ServerView {
            id,
            peers,
            state: ServerState::Follower,
            term: 1,
            voted_for: None,
            log: Seq::empty(),
            commit_index: 0,
            election_alarm: alarm,
            vote_granted: for_all_peers(peers, false),
            match_index: for_all_peers(peers, 0usize),
            next_index: for_all_peers(peers, 1usize),
            rpc_due: for_all_peers(peers, 0u64),
            heartbeat_due: for_all_peers(peers, 0u64),
        }
    }

    /// Term of the last entry of the log.
    pub open spec fn last_term(self) -> u64 {
        term_at(self.log, self.log.len() as int)
    }

    /// The peers that have granted their vote.
    pub open spec fn granters(self) -> Set<u32> {
        self.vote_granted.dom().filter(|p: u32| self.vote_granted[p])
    }

    /// The server's timer has run out and it will stand for election.
    pub open spec fn times_out(self, now: u64) -> bool {
        &&& self.state == ServerState::Follower || self.state == ServerState::Candidate
        &&& self.election_alarm <= now
    }

    /// The server as a candidate of the next term.
    pub open spec fn standing(self, alarm: u64) -> ServerView {
        ServerView {
            election_alarm: alarm,
            term: (self.term + 1) as u64,
            voted_for: Some(self.id),
            state: ServerState::Candidate,
            vote_granted: for_all_peers(self.peers, false),
            match_index: for_all_peers(self.peers, 0usize),
            next_index: for_all_peers(self.peers, 1usize),
            rpc_due: for_all_peers(self.peers, 0u64),
            heartbeat_due: for_all_peers(self.peers, 0u64),
            ..self
        }
    }

    /// The server is a candidate that a majority, itself counted, has voted for.
    pub open spec fn wins(self) -> bool {
        &&& self.state == ServerState::Candidate
        &&& self.granters().len() + 1 > NUM_SERVERS / 2
    }

    /// The server as leader of its term.
    pub open spec fn leading(self) -> ServerView {
        ServerView {
            state: ServerState::Leader,
            next_index: for_all_peers(self.peers, (self.log.len() + 1) as usize),
            rpc_due: for_all_peers(self.peers, INF),
            heartbeat_due: for_all_peers(self.peers, 0u64),
            election_alarm: INF,
            ..self
        }
    }

    /// How many replicas, the server itself counted, are not known to hold
    /// its log up to `index`.
    pub open spec fn trailing(self, index: int) -> nat {
        self.match_index.dom().filter(|p: u32| self.match_index[p] < index).len() + if self.log.len()
            < index {
            1nat
        } else {
            0nat
        }
    }

    /// All replicas but a minority are known to hold the log up to `index`,
    /// and no further.
    pub open spec fn agreed_upto(self, index: int) -> bool {
        &&& self.trailing(index) <= NUM_SERVERS / 2
        &&& self.trailing(index + 1) > NUM_SERVERS / 2
    }

    /// The greatest index that all replicas but a minority are known to hold.
    pub open spec fn agreed(self) -> int {
        choose|index: int| index >= 0 && self.agreed_upto(index)
    }

    /// The server with its commit index moved up to what a majority holds,
    /// if that is an entry of its own term as leader.
    pub open spec fn committing(self) -> ServerView {
        if self.state == ServerState::Leader && term_at(self.log, self.agreed()) == self.term
            && self.agreed() > self.commit_index {
            ServerView { commit_index: self.agreed() as usize, ..self }
        } else {
            self
        }
    }

    /// The server is a candidate that should ask `peer` for its vote.
    pub open spec fn asks(self, peer: u32, now: u64) -> bool {
        self.state == ServerState::Candidate && self.rpc_due[peer] <= now
    }

    /// The server is a leader that should write to `peer`: its heartbeat is
    /// due, or there is something new and no request is outstanding.
    pub open spec fn writes(self, peer: u32, now: u64) -> bool {
        &&& self.state == ServerState::Leader
        &&& self.heartbeat_due[peer] <= now || (self.next_index[peer] <= self.log.len()
            && self.rpc_due[peer] <= now)
    }

    /// Index of the entry that the next entries for `peer` follow.
    pub open spec fn prev_index(self, peer: u32) -> int {
        self.next_index[peer] - 1
    }

    /// Index of the last entry that is sent to `peer`: none is sent while the
    /// leader is still looking for the point where the logs agree.
    pub open spec fn last_sent(self, peer: u32) -> int {
        let prev = self.prev_index(peer);
        if self.match_index[peer] + 1 < self.next_index[peer] {
            prev
        } else if prev + BATCH_SIZE < self.log.len() {
            prev + BATCH_SIZE
        } else {
            self.log.len() as int
        }
    }

    /// What the leader writes to `peer`.
    pub open spec fn entries_for(self, peer: u32) -> BodyView {
        let prev = self.prev_index(peer);
        let last = self.last_sent(peer);
        BodyView::AppendEntriesReq {
            prev_index: prev as usize,
            prev_term: term_at(self.log, prev),
            entries: self.log.subrange(prev, last),
            commit_index: if self.commit_index < last {
                self.commit_index
            } else {
                last as usize
            },
        }
    }

    /// The server would grant its vote to `candidate`, whose log ends at
    /// `last_index` with an entry of `last_term`, in `term`.
    pub open spec fn grants(
        self,
        candidate: u32,
        term: u64,
        last_term: u64,
        last_index: usize,
    ) -> bool {
        &&& self.term == term
        &&& self.voted_for is None || self.voted_for == Some(candidate)
        &&& last_term > self.last_term() || (last_term == self.last_term() && last_index
            >= self.log.len())
    }

    /// The server's log holds an entry of `prev_term` at `prev_index`.
    pub open spec fn accepts(self, prev_index: usize, prev_term: u64) -> bool {
        prev_index == 0 || (prev_index <= self.log.len() && term_at(self.log, prev_index as int)
            == prev_term)
    }

    /// Its election timer is running and will ring.
    pub open spec fn timer_runs(self, now: u64) -> bool {
        now < self.election_alarm < INF
    }
}

// ----- the cluster -----

impl ModelView {
    /// Position of the first server called `id`, or the number of servers if
    /// there is none.
    pub open spec fn position(self, id: u32) -> int {
        first_called(self.servers, id)
    }

    /// The running election timers, earliest first.
    pub open spec fn timers(self) -> Seq<u64> {
        running_timers(self.servers, self.time).sort_by(|a: u64, b: u64| a <= b)
    }

    /// Server `i` leads, in a term that no other leader's is later than and
    /// that no leader before it in the list shares.
    pub open spec fn is_top_leader(self, i: int) -> bool {
        &&& 0 <= i < self.servers.len()
        &&& self.servers[i].state == ServerState::Leader
        &&& forall|j: int|
            #![trigger self.servers[j]]
            0 <= j < self.servers.len() && self.servers[j].state == ServerState::Leader
                ==> self.servers[j].term <= self.servers[i].term && (j < i ==> self.servers[j].term
                < self.servers[i].term)
    }
}

impl ModelView {
    /// The leader of the latest term, if there is a leader.
    pub open spec fn leader(self) -> Option<int> {
        if exists|i: int| self.is_top_leader(i) {
            Some(choose|i: int| self.is_top_leader(i))
        } else {
            None
        }
    }
}

/// Position of the first of `servers` that is called `id`, or their number.
pub open spec fn first_called(servers: Seq<ServerView>, id: u32) -> int
    decreases servers.len(),
{
    if servers.len() == 0 {
        0
    } else if first_called(servers.drop_last(), id) < servers.len() - 1 {
        first_called(servers.drop_last(), id)
    } else if servers.last().id == id {
        servers.len() - 1
    } else {
        servers.len() as int
    }
}

/// The election timers of `servers` that are running.
pub open spec fn running_timers(servers: Seq<ServerView>, now: u64) -> Seq<u64> {
    servers.filter(|s: ServerView| s.timer_runs(now)).map_values(|s: ServerView| s.election_alarm)
}

impl Sim {
    // ----- helpers -----

    /// Server `si`.
    pub open spec fn server(self, si: int) -> ServerView {
        self.model.servers[si]
    }

    /// With `s` in the place of server `si`.
    pub open spec fn with(self, si: int, s: ServerView) -> Sim {
        Sim { model: self.model.with(si, s), ..self }
    }

    /// The next draw.
    pub open spec fn draw(self) -> u64 {
        self.rng.draw()
    }

    /// With the next draw taken.
    pub open spec fn drawn(self) -> Sim {
        Sim { rng: self.rng.next(), ..self }
    }

    /// With a message sent: it is stamped with the time of sending and a
    /// random time of arrival.
    pub open spec fn sent(self, from: u32, to: u32, term: u64, body: BodyView) -> Sim {
        let m = MessageView {
            from,
            to,
            term,
            send_time: self.model.time,
            recv_time: arrival(self.model.time, self.draw()),
            body,
        };
        Sim {
            model: ModelView { messages: self.model.messages.push(m), ..self.model },
            rng: self.rng.next(),
        }
    }

    /// Server `si` follows in `term`. Its timer is set anew if it has run out
    /// or was not running.
    pub open spec fn step_down(self, si: int, term: u64) -> Sim {
        let s = self.server(si);
        let follower = ServerView {
            term,
            state: ServerState::Follower,
            voted_for: None,
            ..s
        };
        if s.election_alarm <= self.model.time || s.election_alarm == INF {
            self.with(
                si,
                ServerView { election_alarm: alarm(self.model.time, self.draw()), ..follower },
            ).drawn()
        } else {
            self.with(si, follower)
        }
    }

    /// Server `si` follows in `term` if its own term is an earlier one.
    pub open spec fn catch_up(self, si: int, term: u64) -> Sim {
        if self.server(si).term < term {
            self.step_down(si, term)
        } else {
            self
        }
    }

    // ----- rules -----

    /// Server `si` has stood for election if its timer has run out.
    pub open spec fn start_new_election(self, si: int) -> Sim {
        if self.server(si).times_out(self.model.time) {
            self.with(
                si,
                self.server(si).standing(alarm(self.model.time, self.draw())),
            ).drawn()
        } else {
            self
        }
    }

    /// Server `si` has asked `peer` for its vote if it should.
    pub open spec fn send_request_vote(self, si: int, peer: u32) -> Sim {
        let s = self.server(si);
        if s.asks(peer, self.model.time) {
            self.with(
                si,
                ServerView {
                    rpc_due: s.rpc_due.insert(peer, after(self.model.time, RPC_TIMEOUT as int)),
                    ..s
                },
            ).sent(
                s.id,
                peer,
                s.term,
                BodyView::RequestVoteReq {
                    last_log_term: s.last_term(),
                    last_log_index: s.log.len() as usize,
                },
            )
        } else {
            self
        }
    }

    /// Server `si` leads if it has won.
    pub open spec fn become_leader(self, si: int) -> Sim {
        Sim { model: self.model.become_leader(si), ..self }
    }

    /// Server `si` has written to `peer` if it should.
    pub open spec fn send_append_entries(self, si: int, peer: u32) -> Sim {
        let s = self.server(si);
        if s.writes(peer, self.model.time) {
            self.with(
                si,
                ServerView {
                    rpc_due: s.rpc_due.insert(peer, after(self.model.time, RPC_TIMEOUT as int)),
                    heartbeat_due: s.heartbeat_due.insert(
                        peer,
                        after(self.model.time, ELECTION_TIMEOUT as int / 2),
                    ),
                    ..s
                },
            ).sent(s.id, peer, s.term, s.entries_for(peer))
        } else {
            self
        }
    }

    /// Server `si` has committed what it can.
    pub open spec fn advance_commit_index(self, si: int) -> Sim {
        Sim { model: self.model.advance_commit_index(si), ..self }
    }

    // ----- message handlers -----

    /// Server `si` has answered a candidate.
    pub open spec fn handle_request_vote_request(self, si: int, msg: MessageView) -> Sim {
        let w = self.catch_up(si, msg.term);
        let s = w.server(si);
        match msg.body {
            BodyView::RequestVoteReq { last_log_term, last_log_index } => {
                if s.grants(msg.from, msg.term, last_log_term, last_log_index) {
                    w.with(
                        si,
                        ServerView {
                            voted_for: Some(msg.from),
                            election_alarm: alarm(w.model.time, w.draw()),
                            ..s
                        },
                    ).drawn().sent(
                        msg.to,
                        msg.from,
                        s.term,
                        BodyView::RequestVoteRep { granted: true },
                    )
                } else {
                    w.sent(msg.to, msg.from, s.term, BodyView::RequestVoteRep { granted: false })
                }
            },
            _ => self,
        }
    }

    /// Server `si` has counted a vote, if it is still a candidate of that term.
    pub open spec fn handle_request_vote_reply(self, si: int, msg: MessageView) -> Sim {
        let w = self.catch_up(si, msg.term);
        let s = w.server(si);
        match msg.body {
            BodyView::RequestVoteRep { granted } => {
                if s.state == ServerState::Candidate && s.term == msg.term {
                    w.with(
                        si,
                        ServerView {
                            rpc_due: s.rpc_due.insert(msg.from, INF),
                            vote_granted: s.vote_granted.insert(msg.from, granted),
                            ..s
                        },
                    )
                } else {
                    w
                }
            },
            _ => self,
        }
    }

    /// Server `si` has answered a leader: it takes up the entries if its log
    /// agrees with the leader's at the point that they follow.
    pub open spec fn handle_append_entries_request(self, si: int, msg: MessageView) -> Sim {
        let w = self.catch_up(si, msg.term);
        let s = w.server(si);
        match msg.body {
            BodyView::AppendEntriesReq { prev_index, prev_term, entries, commit_index } => {
                if s.term != msg.term {
                    w.sent(
                        msg.to,
                        msg.from,
                        s.term,
                        BodyView::AppendEntriesRep { success: false, match_index: 0 },
                    )
                } else {
                    let f = ServerView {
                        state: ServerState::Follower,
                        election_alarm: alarm(w.model.time, w.draw()),
                        ..s
                    };
                    if s.accepts(prev_index, prev_term) {
                        w.with(
                            si,
                            ServerView {
                                log: merged(s.log, prev_index as int, entries),
                                commit_index: if s.commit_index < commit_index {
                                    commit_index
                                } else {
                                    s.commit_index
                                },
                                ..f
                            },
                        ).drawn().sent(
                            msg.to,
                            msg.from,
                            s.term,
                            BodyView::AppendEntriesRep {
                                success: true,
                                match_index: (prev_index + entries.len()) as usize,
                            },
                        )
                    } else {
                        w.with(si, f).drawn().sent(
                            msg.to,
                            msg.from,
                            s.term,
                            BodyView::AppendEntriesRep { success: false, match_index: 0 },
                        )
                    }
                }
            },
            _ => self,
        }
    }

    /// Server `si` has noted a follower's answer, if it still leads in that term.
    pub open spec fn handle_append_entries_reply(self, si: int, msg: MessageView) -> Sim {
        let w = self.catch_up(si, msg.term);
        let s = w.server(si);
        match msg.body {
            BodyView::AppendEntriesRep { success, match_index } => {
                if s.state == ServerState::Leader && s.term == msg.term {
                    w.with(
                        si,
                        ServerView {
                            match_index: if success && s.match_index[msg.from] < match_index {
                                s.match_index.insert(msg.from, match_index)
                            } else {
                                s.match_index
                            },
                            next_index: if success {
                                s.next_index.insert(msg.from, (match_index + 1) as usize)
                            } else if s.next_index[msg.from] > 1 {
                                s.next_index.insert(
                                    msg.from,
                                    (s.next_index[msg.from] - 1) as usize,
                                )
                            } else {
                                s.next_index.insert(msg.from, 1)
                            },
                            rpc_due: s.rpc_due.insert(msg.from, 0),
                            ..s
                        },
                    )
                } else {
                    w
                }
            },
            _ => self,
        }
    }

    /// `msg` has been handled by server `si`, unless that is down.
    pub open spec fn handle_message(self, si: int, msg: MessageView) -> Sim {
        if self.server(si).state == ServerState::Stopped {
            self
        } else {
            match msg.body {
                BodyView::RequestVoteReq { .. } => self.handle_request_vote_request(si, msg),
                BodyView::RequestVoteRep { .. } => self.handle_request_vote_reply(si, msg),
                BodyView::AppendEntriesReq { .. } => self.handle_append_entries_request(si, msg),
                BodyView::AppendEntriesRep { .. } => self.handle_append_entries_reply(si, msg),
            }
        }
    }

    // ----- one tick -----

    /// Server `si` has looked after the first `n` of its peers.
    pub open spec fn peers_contacted(self, si: int, n: nat) -> Sim
        decreases n,
    {
        if n == 0 {
            self
        } else {
            let peer = self.server(si).peers[n - 1];
            self.peers_contacted(si, (n - 1) as nat).send_request_vote(
                si,
                peer,
            ).send_append_entries(si, peer)
        }
    }

    /// Every rule has been applied to server `si`.
    pub open spec fn rules_applied(self, si: int) -> Sim {
        self.start_new_election(si).become_leader(si).advance_commit_index(si).peers_contacted(
            si,
            self.server(si).peers.len(),
        )
    }

    /// Every rule has been applied to the first `n` servers.
    pub open spec fn all_rules_applied(self, n: nat) -> Sim
        decreases n,
    {
        if n == 0 {
            self
        } else {
            self.all_rules_applied((n - 1) as nat).rules_applied(n - 1)
        }
    }

    /// `msg` has reached the server that it is addressed to.
    pub open spec fn delivered(self, msg: MessageView) -> Sim {
        let si = self.model.position(msg.to);
        if si < self.model.servers.len() {
            self.handle_message(si, msg)
        } else {
            self
        }
    }

    /// All of `msgs` have been delivered, in their order.
    pub open spec fn all_delivered(self, msgs: Seq<MessageView>) -> Sim
        decreases msgs.len(),
    {
        if msgs.len() == 0 {
            self
        } else {
            self.all_delivered(msgs.drop_last()).delivered(msgs.last())
        }
    }

    /// One tick: every rule is applied to every server, then the messages that
    /// have arrived are delivered.
    pub open spec fn updated(self) -> Sim {
        let w = self.all_rules_applied(self.model.servers.len());
        Sim { model: w.model.collected(), ..w }.all_delivered(w.model.arrived())
    }

    // ----- user actions -----

    /// Server `si` is down.
    pub open spec fn stopped(self, si: int) -> Sim {
        Sim { model: self.model.stopped(si), ..self }
    }

    /// Server `si` follows, with its timer set anew.
    pub open spec fn resumed(self, si: int) -> Sim {
        self.with(
            si,
            ServerView {
                state: ServerState::Follower,
                election_alarm: alarm(self.model.time, self.draw()),
                ..self.server(si)
            },
        ).drawn()
    }

    /// The first `n` servers have been resumed.
    pub open spec fn all_resumed(self, n: nat) -> Sim
        decreases n,
    {
        if n == 0 {
            self
        } else {
            self.all_resumed((n - 1) as nat).resumed(n - 1)
        }
    }

    /// Server `si` has been down and is up again.
    pub open spec fn restarted(self, si: int) -> Sim {
        self.stopped(si).resumed(si)
    }

    /// Server `si` stands for election at once.
    pub open spec fn timed_out(self, si: int) -> Sim {
        self.with(
            si,
            ServerView { state: ServerState::Follower, election_alarm: 0, ..self.server(si) },
        ).start_new_election(si)
    }

    /// Server `si` has taken a client's request if it leads.
    pub open spec fn requested(self, si: int) -> Sim {
        Sim { model: self.model.requested(si), ..self }
    }

    /// Servers 1 to `n` of the list have been moved to term 2 and have voted
    /// for server 1 in it.
    pub open spec fn electors_set(self, n: nat) -> Sim
        decreases n,
    {
        if n == 0 {
            self
        } else {
            let w = self.electors_set((n - 1) as nat);
            w.with(n as int, ServerView { term: 2, voted_for: Some(1), ..w.server(n as int) })
        }
    }

    /// Server 0 of the list has every peer's vote.
    pub open spec fn votes_cast(self) -> Sim {
        let s = self.server(0);
        self.with(0, ServerView { vote_granted: for_all_peers(s.peers, true), ..s })
    }

    /// The log-replication scenario: one leader with three entries of its own,
    /// one follower, and three servers that are down.
    pub open spec fn log_replication_scenario(self) -> Sim {
        self.restarted(1).restarted(2).restarted(3).restarted(4).timed_out(
            0,
        ).start_new_election(0).electors_set(4).votes_cast().stopped(2).stopped(3).stopped(
            4,
        ).become_leader(0).requested(0).requested(0).requested(0)
    }
}

/// Everybody but server `id`.
pub open spec fn peers_of(id: u32) -> Seq<u32> {
    Seq::new(
        (NUM_SERVERS - 1) as nat,
        |j: int|
            if j + 1 < id {
                (j + 1) as u32
            } else {
                (j + 2) as u32
            },
    )
}

impl Sim {
    /// A cluster of the first `n` servers, each of which knows all the others.
    pub open spec fn founded(rng: RandomView, n: nat) -> Sim
        decreases n,
    {
        if n == 0 {
            Sim {
                model: ModelView { time: 0, servers: Seq::empty(), messages: Seq::empty() },
                rng,
            }
        } else {
            let w = Sim::founded(rng, (n - 1) as nat);
            let s = ServerView::fresh(n as u32, peers_of(n as u32), alarm(0, w.draw()));
            Sim {
                model: ModelView { servers: w.model.servers.push(s), ..w.model },
                rng: w.rng.next(),
            }
        }
    }
}

impl ModelView {
    /// With `s` in the place of server `si`.
    pub open spec fn with(self, si: int, s: ServerView) -> ModelView {
        ModelView { servers: self.servers.update(si, s), ..self }
    }

    /// Server `si` leads if it has won.
    pub open spec fn become_leader(self, si: int) -> ModelView {
        if self.servers[si].wins() {
            self.with(si, self.servers[si].leading())
        } else {
            self
        }
    }

    /// Server `si` has committed what it can.
    pub open spec fn advance_commit_index(self, si: int) -> ModelView {
        self.with(si, self.servers[si].committing())
    }

    /// Server `si` is down.
    pub open spec fn stopped(self, si: int) -> ModelView {
        self.with(
            si,
            ServerView { state: ServerState::Stopped, election_alarm: 0, ..self.servers[si] },
        )
    }

    /// Server `si` has taken a client's request if it leads.
    pub open spec fn requested(self, si: int) -> ModelView {
        let s = self.servers[si];
        if s.state == ServerState::Leader {
            self.with(
                si,
                ServerView { log: s.log.push(EntryView { term: s.term, value: "v"@ }), ..s },
            )
        } else {
            self
        }
    }

    /// The messages that have arrived.
    pub open spec fn arrived(self) -> Seq<MessageView> {
        self.messages.filter(|m: MessageView| m.recv_time <= self.time)
    }

    /// With only those messages left that are still on their way; one due at
    /// `INF` is lost.
    pub open spec fn collected(self) -> ModelView {
        ModelView {
            messages: self.messages.filter(|m: MessageView| self.time < m.recv_time < INF),
            ..self
        }
    }

    /// Message `i` is lost, if there is one.
    pub open spec fn message_dropped(self, i: int) -> ModelView {
        if 0 <= i < self.messages.len() {
            ModelView { messages: self.messages.remove(i), ..self }
        } else {
            self
        }
    }

    /// With the election timers passed through `f`.
    pub open spec fn retimed(self, f: spec_fn(u64) -> u64) -> ModelView {
        ModelView {
            servers: self.servers.map_values(
                |s: ServerView| ServerView { election_alarm: f(s.election_alarm), ..s },
            ),
            ..self
        }
    }

    /// The two earliest timers have been moved apart, so that the first to
    /// ring can win before the next one rings.
    pub open spec fn timers_spread(self) -> ModelView {
        let t = self.timers();
        if t.len() > 1 && t[1] - t[0] < MAX_RPC_LATENCY {
            if t[0] > self.time + MAX_RPC_LATENCY {
                self.retimed(|a: u64| if a == t[0] { (a - MAX_RPC_LATENCY) as u64 } else { a })
            } else {
                self.retimed(
                    |a: u64|
                        if t[0] < a < t[0] + MAX_RPC_LATENCY {
                            (a + MAX_RPC_LATENCY) as u64
                        } else {
                            a
                        },
                )
            }
        } else {
            self
        }
    }

    /// The two earliest timers have been made to ring together.
    pub open spec fn timers_aligned(self) -> ModelView {
        let m = self.timers_spread();
        let t = m.timers();
        if t.len() > 1 {
            m.retimed(|a: u64| if a == t[1] { t[0] } else { a })
        } else {
            m
        }
    }
}

} // verus!
