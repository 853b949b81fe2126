//! What is drawn of a cluster: everything but the geometry.

use crate::protocol::{BodyView, MessageView, ModelView, ServerView};
use crate::raft::{Body, Message, Model, Server, ServerState, ELECTION_TIMEOUT};
use crate::util::clamp;
use std::collections::BTreeMap;
use vstd::prelude::*;

verus! {

// ----- colors -----

/// The color of a term.
pub open spec fn color_of(term: u64) -> Seq<char> {
    let k = term % 6;
    if k == 0 {
        "#66c2a5"@
    } else if k == 1 {
        "#fc8d62"@
    } else if k == 2 {
        "#8da0cb"@
    } else if k == 3 {
        "#e78ac3"@
    } else if k == 4 {
        "#a6d854"@
    } else {
        "#ffd92f"@
    }
}

/// The color of a term.
pub fn term_color(term: u64) -> (c: &'static str)
    ensures
        c@ == color_of(term),
{
    let k: u64 = term % 6;
    if k == 0 {
        "#66c2a5"
    } else if k == 1 {
        "#fc8d62"
    } else if k == 2 {
        "#8da0cb"
    } else if k == 3 {
        "#e78ac3"
    } else if k == 4 {
        "#a6d854"
    } else {
        "#ffd92f"
    }
}

impl ServerView {
    /// The color of the server's disk.
    pub open spec fn fill(self) -> Seq<char> {
        if self.state == ServerState::Stopped {
            "gray"@
        } else {
            color_of(self.term)
        }
    }

    /// How much of the server's election timer is left, of two election
    /// timeouts.
    pub open spec fn timer_left(self, now: u64) -> int {
        if self.election_alarm <= now {
            0
        } else if self.election_alarm - now > 2 * ELECTION_TIMEOUT {
            2 * ELECTION_TIMEOUT
        } else {
            self.election_alarm - now
        }
    }
}

// ----- servers -----

/// How a vote is drawn.
#[derive(Clone, Copy, PartialEq, Eq, Debug, Structural)]
pub enum VoteMark {
    Have,
    Coming,
    No,
}

impl VoteMark {
    /// CSS class.
    pub open spec fn name(self) -> Seq<char> {
        match self {
            VoteMark::Have => "have"@,
            VoteMark::Coming => "coming"@,
            VoteMark::No => "no"@,
        }
    }

    /// CSS class.
    pub fn as_str(&self) -> (s: &'static str)
        ensures
            s@ == self.name(),
    {
        match self {
            VoteMark::Have => "have",
            VoteMark::Coming => "coming",
            VoteMark::No => "no",
        }
    }
}

/// The vote of one server, as its candidate sees it.
#[derive(Clone, Copy, PartialEq, Eq, Debug, Structural)]
pub struct VoteDot {
    pub peer: u32,
    pub mark: VoteMark,
}

/// What is drawn of a server.
pub struct ServerFigure {
    pub id: u32,
    pub term: u64,
    pub state: ServerState,
    pub fill: &'static str,
    /// Of `2 * ELECTION_TIMEOUT`.
    pub timer_left: u64,
    pub votes: Vec<VoteDot>,
}

impl ServerView {
    /// The vote of `peer`: it is there if it is the candidate's own or was
    /// granted, and on its way if the peer has decided so in the same term.
    pub open spec fn vote_of(self, peer: ServerView) -> VoteMark {
        if peer.id == self.id || (self.vote_granted.contains_key(peer.id)
            && self.vote_granted[peer.id]) {
            VoteMark::Have
        } else if peer.voted_for == Some(self.id) && peer.term == self.term {
            VoteMark::Coming
        } else {
            VoteMark::No
        }
    }
}

impl ModelView {
    /// The votes that are drawn in server `i`: those of all servers if it is
    /// a candidate.
    pub open spec fn votes_in(self, i: int) -> Seq<VoteDot> {
        if self.servers[i].state == ServerState::Candidate {
            Seq::new(
                self.servers.len(),
                |j: int|
                    VoteDot {
                        peer: self.servers[j].id,
                        mark: self.servers[i].vote_of(self.servers[j]),
                    },
            )
        } else {
            Seq::empty()
        }
    }
}

impl Server {
    fn vote_of(&self, peer: &Server) -> (mark: VoteMark)
        ensures
            mark == self@.vote_of(peer@),
    {
        let granted = match self.vote_granted.get(&peer.id) {
            Some(g) => *g,
            None => false,
        };
        let promised = match peer.voted_for {
            Some(id) => id == self.id,
            None => false,
        };
        if peer.id == self.id || granted {
            VoteMark::Have
        } else if promised && peer.term == self.term {
            VoteMark::Coming
        } else {
            VoteMark::No
        }
    }

    /// How much of the server's election timer is left.
    pub fn timer_left(&self, now: u64) -> (t: u64)
        ensures
            t == self@.timer_left(now),
    {
        clamp(
            self.election_alarm as i128 - now as i128,
            0,
            2 * ELECTION_TIMEOUT as i128,
        ) as u64
    }
}

impl Model {
    /// What is drawn of server `i`.
    pub fn server_figure(&self, i: usize) -> (f: ServerFigure)
        requires
            i < self.servers@.len(),
        ensures
            f.id == self@.servers[i as int].id,
            f.term == self@.servers[i as int].term,
            f.state == self@.servers[i as int].state,
            f.fill@ == self@.servers[i as int].fill(),
            f.timer_left == self@.servers[i as int].timer_left(self.time),
            f.votes@ == self@.votes_in(i as int),
    {
        let s = &self.servers[i];
        assert(self@.servers[i as int] == s@);
        let mut votes: Vec<VoteDot> = Vec::new();
        if s.state == ServerState::Candidate {
            let mut j: usize = 0;
            while j < self.servers.len()
                invariant
                    i < self.servers@.len(),
                    s@ == self@.servers[i as int],
                    s.state == ServerState::Candidate,
                    j <= self.servers@.len(),
                    votes@ == self@.votes_in(i as int).take(j as int),
                decreases self.servers.len() - j,
            {
                let peer = &self.servers[j];
                assert(self@.servers[j as int] == peer@);
                votes.push(VoteDot { peer: peer.id, mark: s.vote_of(peer) });
                j += 1;
                assert(votes@ =~= self@.votes_in(i as int).take(j as int));
            }
        }
        assert(votes@ =~= self@.votes_in(i as int));
        let fill = if s.state == ServerState::Stopped {
            "gray"
        } else {
            term_color(s.term)
        };
        ServerFigure {
            id: s.id,
            term: s.term,
            state: s.state,
            fill,
            timer_left: s.timer_left(self.time),
            votes,
        }
    }
}

// ----- messages -----

impl MessageView {
    /// The message brings good news: a vote, or entries taken up.
    pub open spec fn good_news(self) -> bool {
        match self.body {
            BodyView::RequestVoteRep { granted } => granted,
            BodyView::AppendEntriesRep { success, .. } => success,
            _ => false,
        }
    }
}

impl Message {
    /// Whether the message brings a vote, or word of entries taken up.
    pub fn is_good_news(&self) -> (b: bool)
        ensures
            b == self@.good_news(),
    {
        match self.body {
            Body::RequestVoteRep { granted } => granted,
            Body::AppendEntriesRep { success, .. } => success,
            _ => false,
        }
    }
}

/// What is drawn of a message.
#[derive(Clone, Copy, PartialEq, Eq, Debug)]
pub struct MessageFigure {
    /// Which remote call it belongs to.
    pub call: &'static str,
    /// Which way of the call it goes.
    pub direction: &'static str,
    /// The mark of an answer: whether it brings good news.
    pub mark: Option<bool>,
    /// Whether there is an arrow to show where it goes.
    pub arrow: bool,
}

impl Model {
    /// What is drawn of message `i`: answers are marked, and arrows show only
    /// while the simulation is paused.
    pub fn message_figure(&self, i: usize, paused: bool) -> (f: MessageFigure)
        requires
            i < self.messages@.len(),
        ensures
            f.call@ == self@.messages[i as int].call_name(),
            f.direction@ == self@.messages[i as int].direction_name(),
            f.mark == (if self@.messages[i as int].replies() {
                Some(self@.messages[i as int].good_news())
            } else {
                None
            }),
            f.arrow == paused,
    {
        let m = &self.messages[i];
        assert(self@.messages[i as int] == m@);
        MessageFigure {
            call: m.type_str(),
            direction: m.direction_str(),
            mark: if m.is_reply() {
                Some(m.is_good_news())
            } else {
                None
            },
            arrow: paused,
        }
    }
}

// ----- logs -----

/// What is drawn of a log entry.
pub struct EntryFigure {
    /// Counted from one.
    pub index: usize,
    pub term: u64,
    pub committed: bool,
    pub fill: &'static str,
}

/// How far a leader is with a follower's log.
#[derive(Clone, Copy, PartialEq, Eq, Debug, Structural)]
pub struct Progress {
    pub match_index: usize,
    pub next_index: usize,
}

/// What is drawn of a server's log.
pub struct LogRow {
    pub id: u32,
    pub state: ServerState,
    pub entries: Vec<EntryFigure>,
    pub progress: Option<Progress>,
}

impl EntryFigure {
    /// It is what is drawn of the entry at position `k` of the log of `s`.
    pub open spec fn shows(self, s: ServerView, k: int) -> bool {
        &&& self.index == k + 1
        &&& self.term == s.log[k].term
        &&& self.committed == (k + 1 <= s.commit_index)
        &&& self.fill@ == color_of(s.log[k].term)
    }

    /// CSS class fragment.
    pub fn class(&self) -> (s: &'static str)
        ensures
            s@ == if self.committed {
                "committed"@
            } else {
                "uncommitted"@
            },
    {
        if self.committed {
            "committed"
        } else {
            "uncommitted"
        }
    }

    /// How the entry's outline is dashed: a committed one is solid.
    pub fn dashes(&self) -> (s: &'static str)
        ensures
            s@ == if self.committed {
                "1 0"@
            } else {
                "5 5"@
            },
    {
        if self.committed {
            "1 0"
        } else {
            "5 5"
        }
    }
}

impl ServerView {
    /// How far the server, as leader, is with the log of the server called `id`.
    pub open spec fn progress(self, id: u32) -> Progress {
        Progress {
            match_index: if self.match_index.contains_key(id) {
                self.match_index[id]
            } else {
                0
            },
            next_index: if self.next_index.contains_key(id) {
                self.next_index[id]
            } else {
                1
            },
        }
    }
}

impl LogRow {
    /// It is what is drawn of the log of server `i`.
    pub open spec fn shows(self, m: ModelView, i: int) -> bool {
        let s = m.servers[i];
        &&& self.id == s.id
        &&& self.state == s.state
        &&& self.entries@.len() == s.log.len()
        &&& forall|k: int|
            0 <= k < s.log.len() ==> (#[trigger] self.entries@[k]).shows(s, k)
        &&& self.progress == match m.leader() {
            Some(l) => if m.servers[l].id != s.id {
                Some(m.servers[l].progress(s.id))
            } else {
                None
            },
            None => None,
        }
    }
}

fn entry_or(map: &BTreeMap<u32, usize>, id: u32, otherwise: usize) -> (v: usize)
    ensures
        v == if map@.contains_key(id) {
            map@[id]
        } else {
            otherwise
        },
{
    match map.get(&id) {
        Some(v) => *v,
        None => otherwise,
    }
}

impl Model {
    fn log_row(&self, i: usize, leader: Option<usize>) -> (row: LogRow)
        requires
            i < self.servers@.len(),
            match leader {
                Some(l) => self@.leader() == Some(l as int) && l < self.servers@.len(),
                None => self@.leader() is None,
            },
        ensures
            row.shows(self@, i as int),
    {
        let s = &self.servers[i];
        assert(self@.servers[i as int] == s@);
        let mut entries: Vec<EntryFigure> = Vec::new();
        let mut k: usize = 0;
        while k < s.log.len()
            invariant
                k == entries@.len() <= s.log@.len(),
                forall|j: int| 0 <= j < k ==> (#[trigger] entries@[j]).shows(s@, j),
            decreases s.log.len() - k,
        {
            let term: u64 = s.log[k].term;
            assert(s@.log[k as int] == s.log@[k as int]@);
            entries.push(
                EntryFigure {
                    index: k + 1,
                    term,
                    committed: k < s.commit_index,
                    fill: term_color(term),
                },
            );
            k += 1;
        }
        let progress: Option<Progress> = match leader {
            Some(l) => {
                let top = &self.servers[l];
                assert(self@.servers[l as int] == top@);
                if top.id != s.id {
                    Some(
                        Progress {
                            match_index: entry_or(&top.match_index, s.id, 0),
                            next_index: entry_or(&top.next_index, s.id, 1),
                        },
                    )
                } else {
                    None
                }
            },
            None => None,
        };
        LogRow { id: s.id, state: s.state, entries, progress }
    }

    /// What is drawn of the servers' logs.
    pub fn log_rows(&self) -> (rows: Vec<LogRow>)
        ensures
            rows@.len() == self@.servers.len(),
            forall|i: int| 0 <= i < rows@.len() ==> (#[trigger] rows@[i]).shows(self@, i),
    {
        let leader: Option<usize> = self.leader_index();
        let mut rows: Vec<LogRow> = Vec::new();
        let mut i: usize = 0;
        while i < self.servers.len()
            invariant
                match leader {
                    Some(l) => self@.leader() == Some(l as int) && l < self.servers@.len(),
                    None => self@.leader() is None,
                },
                i == rows@.len() <= self.servers@.len(),
                forall|j: int| 0 <= j < i ==> (#[trigger] rows@[j]).shows(self@, j),
            decreases self.servers.len() - i,
        {
            rows.push(self.log_row(i, leader));
            i += 1;
        }
        rows
    }
}

} // verus!
