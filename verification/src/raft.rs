//! The Raft simulation: servers, messages, and the rules that move them.
//!
//! Everything operates on a [`Model`]. Times are whole microseconds. Rules and
//! message handlers take the model plus a *server index*, and the source of
//! chance that timers and network delays are drawn from. What each of them
//! does is said in [`crate::protocol`].

use crate::peer_map::{make_map, same_map};
use crate::protocol::{
    alarm, share, term_at, BodyView, EntryView, MessageView, ModelView, ServerView, Sim,
};
use crate::util::{random, RandomSource, RANDOM_RANGE};
use std::collections::BTreeMap;
use vstd::prelude::*;

verus! {

/// When a request counts as lost, in microseconds.
pub const RPC_TIMEOUT: u64 = 50000;

/// The least that a message takes, in microseconds.
pub const MIN_RPC_LATENCY: u64 = 10000;

/// What every message takes less than, in microseconds.
pub const MAX_RPC_LATENCY: u64 = 15000;

/// The least that an election timer runs, in microseconds.
pub const ELECTION_TIMEOUT: u64 = 100000;

/// How many servers a cluster has.
pub const NUM_SERVERS: u32 = 5;

/// How many entries a request carries at most.
pub const BATCH_SIZE: usize = 1;

/// What a server is doing.
#[derive(Clone, Copy, PartialEq, Eq, Debug, Structural)]
pub enum ServerState {
    Stopped,
    Follower,
    Candidate,
    Leader,
}

impl ServerState {
    /// The name of the state.
    pub open spec fn name(self) -> Seq<char> {
        match self {
            ServerState::Stopped => "stopped"@,
            ServerState::Follower => "follower"@,
            ServerState::Candidate => "candidate"@,
            ServerState::Leader => "leader"@,
        }
    }

    /// CSS class fragment.
    pub fn as_str(&self) -> (name: &'static str)
        ensures
            name@ == self.name(),
    {
        match self {
            ServerState::Stopped => "stopped",
            ServerState::Follower => "follower",
            ServerState::Candidate => "candidate",
            ServerState::Leader => "leader",
        }
    }
}

// ----- log entries -----

/// A log entry.
#[derive(Debug)]
pub struct LogEntry {
    pub term: u64,
    pub value: String,
}

impl View for LogEntry {
    type V = EntryView;

    open spec fn view(&self) -> EntryView {
        EntryView { term: self.term, value: self.value@ }
    }
}

impl Clone for LogEntry {
    fn clone(&self) -> (r: Self)
        ensures
            r@ == self@,
    {
        LogEntry { term: self.term, value: self.value.clone() }
    }
}

impl PartialEq for LogEntry {
    fn eq(&self, other: &Self) -> (r: bool) {
        self.term == other.term && self.value == other.value
    }
}

impl vstd::std_specs::cmp::PartialEqSpecImpl for LogEntry {
    open spec fn obeys_eq_spec() -> bool {
        true
    }

    open spec fn eq_spec(&self, other: &Self) -> bool {
        self@ == other@
    }
}

/// The entries of a log, seen mathematically.
pub open spec fn entry_views(entries: Seq<LogEntry>) -> Seq<EntryView> {
    entries.map_values(|e: LogEntry| e@)
}

/// A copy of `entries[from..to]`.
pub fn copy_entries(entries: &Vec<LogEntry>, from: usize, to: usize) -> (r: Vec<LogEntry>)
    requires
        from <= to <= entries@.len(),
    ensures
        entry_views(r@) == entry_views(entries@).subrange(from as int, to as int),
{
    let mut r: Vec<LogEntry> = Vec::new();
    let mut i: usize = from;
    while i < to
        invariant
            from <= i <= to <= entries@.len(),
            entry_views(r@) == entry_views(entries@).subrange(from as int, i as int),
        decreases to - i,
    {
        let e = entries[i].clone();
        let ghost before = entry_views(r@);
        r.push(e);
        assert(entry_views(r@) =~= before.push(e@));
        i += 1;
        assert(entry_views(r@) =~= entry_views(entries@).subrange(from as int, i as int));
    }
    r
}

fn same_entries(a: &Vec<LogEntry>, b: &Vec<LogEntry>) -> (r: bool)
    ensures
        r == (entry_views(a@) == entry_views(b@)),
{
    if a.len() != b.len() {
        assert(entry_views(a@).len() != entry_views(b@).len());
        return false;
    }
    let mut i: usize = 0;
    while i < a.len()
        invariant
            i <= a@.len() == b@.len(),
            forall|j: int| 0 <= j < i ==> entry_views(a@)[j] == entry_views(b@)[j],
        decreases a.len() - i,
    {
        if a[i] != b[i] {
            assert(entry_views(a@)[i as int] != entry_views(b@)[i as int]);
            return false;
        }
        i += 1;
    }
    assert(entry_views(a@) =~= entry_views(b@));
    true
}

// ----- messages -----

/// What a message says.
#[derive(Debug)]
pub enum Body {
    RequestVoteReq { last_log_term: u64, last_log_index: usize },
    RequestVoteRep { granted: bool },
    AppendEntriesReq {
        prev_index: usize,
        prev_term: u64,
        entries: Vec<LogEntry>,
        commit_index: usize,
    },
    AppendEntriesRep { success: bool, match_index: usize },
}

impl View for Body {
    type V = BodyView;

    open spec fn view(&self) -> BodyView {
        match *self {
            Body::RequestVoteReq { last_log_term, last_log_index } => {
                BodyView::RequestVoteReq { last_log_term, last_log_index }
            },
            Body::RequestVoteRep { granted } => BodyView::RequestVoteRep { granted },
            Body::AppendEntriesReq { prev_index, prev_term, entries, commit_index } => {
                BodyView::AppendEntriesReq {
                    prev_index,
                    prev_term,
                    entries: entry_views(entries@),
                    commit_index,
                }
            },
            Body::AppendEntriesRep { success, match_index } => {
                BodyView::AppendEntriesRep { success, match_index }
            },
        }
    }
}

impl Clone for Body {
    fn clone(&self) -> (r: Self)
        ensures
            r@ == self@,
    {
        match self {
            Body::RequestVoteReq { last_log_term, last_log_index } => Body::RequestVoteReq {
                last_log_term: *last_log_term,
                last_log_index: *last_log_index,
            },
            Body::RequestVoteRep { granted } => Body::RequestVoteRep { granted: *granted },
            Body::AppendEntriesReq { prev_index, prev_term, entries, commit_index } => {
                let copy = copy_entries(entries, 0, entries.len());
                assert(entry_views(copy@) =~= entry_views(entries@));
                Body::AppendEntriesReq {
                    prev_index: *prev_index,
                    prev_term: *prev_term,
                    entries: copy,
                    commit_index: *commit_index,
                }
            },
            Body::AppendEntriesRep { success, match_index } => Body::AppendEntriesRep {
                success: *success,
                match_index: *match_index,
            },
        }
    }
}

impl PartialEq for Body {
    fn eq(&self, other: &Self) -> (r: bool) {
        match (self, other) {
            (
                Body::RequestVoteReq { last_log_term: t1, last_log_index: i1 },
                Body::RequestVoteReq { last_log_term: t2, last_log_index: i2 },
            ) => *t1 == *t2 && *i1 == *i2,
            (Body::RequestVoteRep { granted: g1 }, Body::RequestVoteRep { granted: g2 }) => *g1
                == *g2,
            (
                Body::AppendEntriesReq {
                    prev_index: i1,
                    prev_term: t1,
                    entries: e1,
                    commit_index: c1,
                },
                Body::AppendEntriesReq {
                    prev_index: i2,
                    prev_term: t2,
                    entries: e2,
                    commit_index: c2,
                },
            ) => *i1 == *i2 && *t1 == *t2 && *c1 == *c2 && same_entries(e1, e2),
            (
                Body::AppendEntriesRep { success: s1, match_index: m1 },
                Body::AppendEntriesRep { success: s2, match_index: m2 },
            ) => *s1 == *s2 && *m1 == *m2,
            _ => false,
        }
    }
}

impl vstd::std_specs::cmp::PartialEqSpecImpl for Body {
    open spec fn obeys_eq_spec() -> bool {
        true
    }

    open spec fn eq_spec(&self, other: &Self) -> bool {
        self@ == other@
    }
}

/// A message on its way.
#[derive(Debug)]
pub struct Message {
    pub from: u32,
    pub to: u32,
    pub term: u64,
    pub send_time: u64,
    pub recv_time: u64,
    pub body: Body,
}

impl View for Message {
    type V = MessageView;

    open spec fn view(&self) -> MessageView {
        MessageView {
            from: self.from,
            to: self.to,
            term: self.term,
            send_time: self.send_time,
            recv_time: self.recv_time,
            body: self.body@,
        }
    }
}

impl Clone for Message {
    fn clone(&self) -> (r: Self)
        ensures
            r@ == self@,
    {
        Message {
            from: self.from,
            to: self.to,
            term: self.term,
            send_time: self.send_time,
            recv_time: self.recv_time,
            body: self.body.clone(),
        }
    }
}

impl PartialEq for Message {
    fn eq(&self, other: &Self) -> (r: bool) {
        self.from == other.from && self.to == other.to && self.term == other.term && self.send_time
            == other.send_time && self.recv_time == other.recv_time && self.body == other.body
    }
}

impl vstd::std_specs::cmp::PartialEqSpecImpl for Message {
    open spec fn obeys_eq_spec() -> bool {
        true
    }

    open spec fn eq_spec(&self, other: &Self) -> bool {
        self@ == other@
    }
}

impl MessageView {
    /// The message answers another one.
    pub open spec fn replies(self) -> bool {
        self.body is RequestVoteRep || self.body is AppendEntriesRep
    }

    /// Which remote call the message belongs to.
    pub open spec fn call_name(self) -> Seq<char> {
        if self.body is RequestVoteReq || self.body is RequestVoteRep {
            "RequestVote"@
        } else {
            "AppendEntries"@
        }
    }

    /// Which way of the call it goes.
    pub open spec fn direction_name(self) -> Seq<char> {
        if self.replies() {
            "reply"@
        } else {
            "request"@
        }
    }
}

impl Message {
    /// Which remote call the message belongs to.
    pub fn type_str(&self) -> (r: &'static str)
        ensures
            r@ == self@.call_name(),
    {
        match self.body {
            Body::RequestVoteReq { .. } | Body::RequestVoteRep { .. } => "RequestVote",
            Body::AppendEntriesReq { .. } | Body::AppendEntriesRep { .. } => "AppendEntries",
        }
    }

    /// Which way of the call it goes.
    pub fn direction_str(&self) -> (r: &'static str)
        ensures
            r@ == self@.direction_name(),
    {
        match self.body {
            Body::RequestVoteReq { .. } | Body::AppendEntriesReq { .. } => "request",
            Body::RequestVoteRep { .. } | Body::AppendEntriesRep { .. } => "reply",
        }
    }

    /// Whether the message answers another one.
    pub fn is_reply(&self) -> (r: bool)
        ensures
            r == self@.replies(),
    {
        match self.body {
            Body::RequestVoteReq { .. } | Body::AppendEntriesReq { .. } => false,
            Body::RequestVoteRep { .. } | Body::AppendEntriesRep { .. } => true,
        }
    }
}

// ----- servers -----

/// A server.
#[derive(Debug)]
pub struct Server {
    pub id: u32,
    pub peers: Vec<u32>,
    pub state: ServerState,
    pub term: u64,
    pub voted_for: Option<u32>,
    pub log: Vec<LogEntry>,
    pub commit_index: usize,
    pub election_alarm: u64,
    pub vote_granted: BTreeMap<u32, bool>,
    pub match_index: BTreeMap<u32, usize>,
    pub next_index: BTreeMap<u32, usize>,
    pub rpc_due: BTreeMap<u32, u64>,
    pub heartbeat_due: BTreeMap<u32, u64>,
}

impl View for Server {
    type V = ServerView;

    open spec fn view(&self) -> ServerView {
        ServerView {
            id: self.id,
            peers: self.peers@,
            state: self.state,
            term: self.term,
            voted_for: self.voted_for,
            log: entry_views(self.log@),
            commit_index: self.commit_index,
            election_alarm: self.election_alarm,
            vote_granted: self.vote_granted@,
            match_index: self.match_index@,
            next_index: self.next_index@,
            rpc_due: self.rpc_due@,
            heartbeat_due: self.heartbeat_due@,
        }
    }
}

impl Clone for Server {
    fn clone(&self) -> (r: Self)
        ensures
            r@ == self@,
    {
        let peers = self.peers.clone();
        assert(peers@ =~= self.peers@);
        let log = copy_entries(&self.log, 0, self.log.len());
        assert(entry_views(log@) =~= entry_views(self.log@));
        Server {
            id: self.id,
            peers,
            state: self.state,
            term: self.term,
            voted_for: self.voted_for,
            log,
            commit_index: self.commit_index,
            election_alarm: self.election_alarm,
            vote_granted: self.vote_granted.clone(),
            match_index: self.match_index.clone(),
            next_index: self.next_index.clone(),
            rpc_due: self.rpc_due.clone(),
            heartbeat_due: self.heartbeat_due.clone(),
        }
    }
}

impl PartialEq for Server {
    fn eq(&self, other: &Self) -> (r: bool) {
        let same_peers = self.peers == other.peers;
        assert(same_peers == (self.peers@ =~= other.peers@));
        self.id == other.id && same_peers && self.state == other.state && self.term == other.term
            && self.voted_for == other.voted_for && same_entries(&self.log, &other.log)
            && self.commit_index == other.commit_index && self.election_alarm
            == other.election_alarm && same_map(&self.vote_granted, &other.vote_granted)
            && same_map(&self.match_index, &other.match_index) && same_map(
            &self.next_index,
            &other.next_index,
        ) && same_map(&self.rpc_due, &other.rpc_due) && same_map(
            &self.heartbeat_due,
            &other.heartbeat_due,
        )
    }
}

impl vstd::std_specs::cmp::PartialEqSpecImpl for Server {
    open spec fn obeys_eq_spec() -> bool {
        true
    }

    open spec fn eq_spec(&self, other: &Self) -> bool {
        self@ == other@
    }
}

// ----- the cluster -----

/// A cluster and its network at one moment.
#[derive(Debug)]
pub struct Model {
    pub time: u64,
    pub servers: Vec<Server>,
    pub messages: Vec<Message>,
}

/// Servers, seen mathematically.
pub open spec fn server_views(servers: Seq<Server>) -> Seq<ServerView> {
    servers.map_values(|s: Server| s@)
}

/// Messages, seen mathematically.
pub open spec fn message_views(messages: Seq<Message>) -> Seq<MessageView> {
    messages.map_values(|m: Message| m@)
}

impl View for Model {
    type V = ModelView;

    open spec fn view(&self) -> ModelView {
        ModelView {
            time: self.time,
            servers: server_views(self.servers@),
            messages: message_views(self.messages@),
        }
    }
}

fn copy_servers(servers: &Vec<Server>) -> (r: Vec<Server>)
    ensures
        server_views(r@) == server_views(servers@),
{
    let mut r: Vec<Server> = Vec::new();
    let mut i: usize = 0;
    while i < servers.len()
        invariant
            i <= servers@.len(),
            server_views(r@) == server_views(servers@).take(i as int),
        decreases servers.len() - i,
    {
        let s = servers[i].clone();
        let ghost before = server_views(r@);
        r.push(s);
        assert(server_views(r@) =~= before.push(s@));
        i += 1;
        assert(server_views(r@) =~= server_views(servers@).take(i as int));
    }
    assert(server_views(r@) =~= server_views(servers@));
    r
}

fn copy_messages(messages: &Vec<Message>) -> (r: Vec<Message>)
    ensures
        message_views(r@) == message_views(messages@),
{
    let mut r: Vec<Message> = Vec::new();
    let mut i: usize = 0;
    while i < messages.len()
        invariant
            i <= messages@.len(),
            message_views(r@) == message_views(messages@).take(i as int),
        decreases messages.len() - i,
    {
        let m = messages[i].clone();
        let ghost before = message_views(r@);
        r.push(m);
        assert(message_views(r@) =~= before.push(m@));
        i += 1;
        assert(message_views(r@) =~= message_views(messages@).take(i as int));
    }
    assert(message_views(r@) =~= message_views(messages@));
    r
}

/// Whether two lists of servers are the same.
pub fn same_servers(a: &Vec<Server>, b: &Vec<Server>) -> (r: bool)
    ensures
        r == (server_views(a@) == server_views(b@)),
{
    if a.len() != b.len() {
        assert(server_views(a@).len() != server_views(b@).len());
        return false;
    }
    let mut i: usize = 0;
    while i < a.len()
        invariant
            i <= a@.len() == b@.len(),
            forall|j: int| 0 <= j < i ==> server_views(a@)[j] == server_views(b@)[j],
        decreases a.len() - i,
    {
        if a[i] != b[i] {
            assert(server_views(a@)[i as int] != server_views(b@)[i as int]);
            return false;
        }
        i += 1;
    }
    assert(server_views(a@) =~= server_views(b@));
    true
}

/// Whether two lists of messages are the same.
pub fn same_messages(a: &Vec<Message>, b: &Vec<Message>) -> (r: bool)
    ensures
        r == (message_views(a@) == message_views(b@)),
{
    if a.len() != b.len() {
        assert(message_views(a@).len() != message_views(b@).len());
        return false;
    }
    let mut i: usize = 0;
    while i < a.len()
        invariant
            i <= a@.len() == b@.len(),
            forall|j: int| 0 <= j < i ==> message_views(a@)[j] == message_views(b@)[j],
        decreases a.len() - i,
    {
        if a[i] != b[i] {
            assert(message_views(a@)[i as int] != message_views(b@)[i as int]);
            return false;
        }
        i += 1;
    }
    assert(message_views(a@) =~= message_views(b@));
    true
}

impl Clone for Model {
    fn clone(&self) -> (r: Self)
        ensures
            r@ == self@,
    {
        Model {
            time: self.time,
            servers: copy_servers(&self.servers),
            messages: copy_messages(&self.messages),
        }
    }
}

impl PartialEq for Model {
    fn eq(&self, other: &Self) -> (r: bool) {
        self.time == other.time && same_servers(&self.servers, &other.servers) && same_messages(
            &self.messages,
            &other.messages,
        )
    }
}

impl vstd::std_specs::cmp::PartialEqSpecImpl for Model {
    open spec fn obeys_eq_spec() -> bool {
        true
    }

    open spec fn eq_spec(&self, other: &Self) -> bool {
        self@ == other@
    }
}

// ----- timers and logs -----

/// A draw stands for less than the whole range.
pub proof fn lemma_share(k: u64, range: u64)
    requires
        k < RANDOM_RANGE,
    ensures
        0 <= share(k, range) <= range,
        range > 0 ==> share(k, range) < range,
{
    assert(k * range <= (RANDOM_RANGE - 1) * range) by (nonlinear_arith)
        requires
            k <= RANDOM_RANGE - 1,
    ;
    assert(k * range >= 0) by (nonlinear_arith);
    assert((RANDOM_RANGE - 1) * range == RANDOM_RANGE * range - range) by (nonlinear_arith);
    if range > 0 {
        vstd::arithmetic::div_mod::lemma_multiply_divide_lt(
            k * range,
            RANDOM_RANGE as int,
            range as int,
        );
    } else {
        assert(k * range == 0) by (nonlinear_arith)
            requires
                range == 0,
        ;
    }
}

/// The part of `range` that a draw stands for, rounded down.
pub fn portion(k: u64, range: u64) -> (part: u64)
    requires
        k < RANDOM_RANGE,
    ensures
        part == share(k, range),
        range > 0 ==> part < range,
{
    assert(k * range <= u64::MAX * u64::MAX) by (nonlinear_arith)
        requires
            k <= u64::MAX,
            range <= u64::MAX,
    ;
    let product: u128 = k as u128 * range as u128;
    proof {
        lemma_share(k, range);
    }
    (product / RANDOM_RANGE as u128) as u64
}

/// When an election timer that is set now runs out.
pub fn make_election_alarm(now: u64, rng: &mut RandomSource) -> (t: u64)
    ensures
        t == alarm(now, old(rng)@.draw()),
        final(rng)@ == old(rng)@.next(),
{
    let k: u64 = random(rng);
    now.saturating_add(ELECTION_TIMEOUT + portion(k, ELECTION_TIMEOUT))
}

/// Term of the log entry at 1-based `index`, or 0 if out of range.
pub fn log_term(log: &[LogEntry], index: usize) -> (term: u64)
    ensures
        term == term_at(entry_views(log@), index as int),
{
    if index < 1 || index > log.len() {
        0
    } else {
        log[index - 1].term
    }
}

/// A server that has just been set up.
pub fn server(id: u32, peers: Vec<u32>, rng: &mut RandomSource) -> (s: Server)
    ensures
        s@ == ServerView::fresh(id, peers@, alarm(0, old(rng)@.draw())),
        final(rng)@ == old(rng)@.next(),
{
    let s = Server {
        id,
        state: ServerState::Follower,
        term: 1,
        voted_for: None,
        log: Vec::new(),
        commit_index: 0,
        election_alarm: make_election_alarm(0, rng),
        vote_granted: make_map(&peers, false),
        match_index: make_map(&peers, 0usize),
        next_index: make_map(&peers, 1usize),
        rpc_due: make_map(&peers, 0u64),
        heartbeat_due: make_map(&peers, 0u64),
        peers,
    };
    assert(entry_views(s.log@) =~= Seq::empty());
    s
}

/// Replacing a server replaces what is seen of it.
pub broadcast proof fn lemma_server_views_update(servers: Seq<Server>, si: int, s: Server)
    requires
        0 <= si < servers.len(),
    ensures
        #[trigger] server_views(servers.update(si, s)) == server_views(servers).update(si, s@),
{
    assert(server_views(servers.update(si, s)) =~= server_views(servers).update(si, s@));
}

impl Model {
    /// The cluster together with a source of chance.
    pub open spec fn sim(&self, rng: &RandomSource) -> Sim {
        Sim { model: self@, rng: rng@ }
    }

    /// A cluster without servers.
    pub fn new() -> (m: Model)
        ensures
            m@ == (ModelView { time: 0, servers: Seq::empty(), messages: Seq::empty() }),
    {
        let m = Model { time: 0, servers: Vec::new(), messages: Vec::new() };
        assert(server_views(m.servers@) =~= Seq::empty());
        assert(message_views(m.messages@) =~= Seq::empty());
        m
    }
}

} // verus!
