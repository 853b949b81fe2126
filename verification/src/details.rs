//! The details of a server or a message, as text for a dialog.

use crate::peer_map::entry_of;
use crate::protocol::{BodyView, EntryView, MessageView, ServerView};
use crate::raft::{entry_views, Body, LogEntry, Message, Server};
use crate::text::{bool_text, decimal, decimal_text, rel_time, rel_time_text, yes_no};
use vstd::prelude::*;
use vstd::string::*;

verus! {

/// A named value of a definition list.
pub open spec fn field_text(name: Seq<char>, value: Seq<char>) -> Seq<char> {
    "<dt>"@ + name + "</dt><dd>"@ + value + "</dd>"@
}

fn field(name: &str, value: &str) -> (s: String)
    ensures
        s@ == field_text(name@, value@),
{
    "<dt>".to_string().concat(name).concat("</dt><dd>").concat(value).concat("</dd>")
}

/// A cell of a table.
pub open spec fn cell_text(value: Seq<char>) -> Seq<char> {
    "<td>"@ + value + "</td>"@
}

fn cell(value: &str) -> (s: String)
    ensures
        s@ == cell_text(value@),
{
    "<td>".to_string().concat(value).concat("</td>")
}

/// The name of a server.
pub open spec fn name_text(id: u32) -> Seq<char> {
    "S"@ + decimal_text(id as nat)
}

/// The name of a server.
pub fn name(id: u32) -> (s: String)
    ensures
        s@ == name_text(id),
{
    "S".to_string().concat(decimal(id as u64).as_str())
}

// ----- servers -----

impl ServerView {
    /// What the server keeps of `peer`, as a row of a table.
    pub open spec fn peer_row(self, peer: u32, now: u64) -> Seq<char> {
        "<tr>"@ + cell_text(name_text(peer)) + cell_text(
            decimal_text(self.next_index[peer] as nat),
        ) + cell_text(decimal_text(self.match_index[peer] as nat)) + cell_text(
            bool_text(self.vote_granted[peer]),
        ) + cell_text(rel_time_text(self.rpc_due[peer], now)) + cell_text(
            rel_time_text(self.heartbeat_due[peer], now),
        ) + "</tr>"@
    }

    /// The table of the first `n` peers.
    pub open spec fn peer_rows(self, n: nat, now: u64) -> Seq<char>
        decreases n,
    {
        if n == 0 {
            "<tr><th>peer</th><th>next index</th><th>match index</th><th>vote granted</th><th>RPC due</th><th>heartbeat due</th></tr>"@
        } else {
            self.peer_rows((n - 1) as nat, now) + self.peer_row(self.peers[n - 1], now)
        }
    }

    /// Whom the server has voted for.
    pub open spec fn vote_text(self) -> Seq<char> {
        match self.voted_for {
            Some(id) => decimal_text(id as nat),
            None => "null"@,
        }
    }

    /// The body of the server's dialog.
    pub open spec fn details(self, now: u64) -> Seq<char> {
        "<dl class=\"dl-horizontal\">"@ + field_text("state"@, self.state.name()) + field_text(
            "currentTerm"@,
            decimal_text(self.term as nat),
        ) + field_text("votedFor"@, self.vote_text()) + field_text(
            "commitIndex"@,
            decimal_text(self.commit_index as nat),
        ) + field_text("electionAlarm"@, rel_time_text(self.election_alarm, now)) + field_text(
            "peers"@,
            "<table class=\"table table-condensed\">"@ + self.peer_rows(self.peers.len(), now)
                + "</table>"@,
        ) + "</dl>"@
    }
}

impl Server {
    /// The title of the server's dialog.
    pub fn title(&self) -> (s: String)
        ensures
            s@ == "Server "@ + decimal_text(self.id as nat),
    {
        "Server ".to_string().concat(decimal(self.id as u64).as_str())
    }

    fn peer_row(&self, peer: u32, now: u64) -> (s: String)
        requires
            self@.keyed(),
            self@.peers.contains(peer),
        ensures
            s@ == self@.peer_row(peer, now),
    {
        "<tr>".to_string().concat(cell(name(peer).as_str()).as_str()).concat(
            cell(decimal(entry_of(&self.next_index, peer) as u64).as_str()).as_str(),
        ).concat(cell(decimal(entry_of(&self.match_index, peer) as u64).as_str()).as_str()).concat(
            cell(yes_no(entry_of(&self.vote_granted, peer))).as_str(),
        ).concat(cell(rel_time(entry_of(&self.rpc_due, peer), now).as_str()).as_str()).concat(
            cell(rel_time(entry_of(&self.heartbeat_due, peer), now).as_str()).as_str(),
        ).concat("</tr>")
    }

    /// The body of the server's dialog.
    pub fn details(&self, now: u64) -> (s: String)
        requires
            self@.keyed(),
        ensures
            s@ == self@.details(now),
    {
        let mut rows: String =
            "<tr><th>peer</th><th>next index</th><th>match index</th><th>vote granted</th><th>RPC due</th><th>heartbeat due</th></tr>".to_string();
        let mut i: usize = 0;
        while i < self.peers.len()
            invariant
                self@.keyed(),
                i <= self.peers@.len(),
                rows@ == self@.peer_rows(i as nat, now),
            decreases self.peers.len() - i,
        {
            assert(self@.peers.contains(self.peers@[i as int]));
            rows.append(self.peer_row(self.peers[i], now).as_str());
            i += 1;
        }
        let voted: String = match self.voted_for {
            Some(id) => decimal(id as u64),
            None => "null".to_string(),
        };
        let table = "<table class=\"table table-condensed\">".to_string().concat(
            rows.as_str(),
        ).concat("</table>");
        "<dl class=\"dl-horizontal\">".to_string().concat(
            field("state", self.state.as_str()).as_str(),
        ).concat(field("currentTerm", decimal(self.term).as_str()).as_str()).concat(
            field("votedFor", voted.as_str()).as_str(),
        ).concat(field("commitIndex", decimal(self.commit_index as u64).as_str()).as_str()).concat(
            field("electionAlarm", rel_time(self.election_alarm, now).as_str()).as_str(),
        ).concat(field("peers", table.as_str()).as_str()).concat("</dl>")
    }
}

// ----- messages -----

/// The terms of log entries, with a blank between them.
pub open spec fn terms_text(entries: Seq<EntryView>) -> Seq<char>
    decreases entries.len(),
{
    if entries.len() == 0 {
        ""@
    } else if entries.len() == 1 {
        decimal_text(entries[0].term as nat)
    } else {
        terms_text(entries.drop_last()) + " "@ + decimal_text(entries.last().term as nat)
    }
}

fn terms(entries: &Vec<LogEntry>) -> (s: String)
    ensures
        s@ == terms_text(entry_views(entries@)),
{
    let ghost all = entry_views(entries@);
    let mut s: String = "".to_string();
    let mut i: usize = 0;
    assert(all.take(0) =~= Seq::empty());
    while i < entries.len()
        invariant
            all == entry_views(entries@),
            i <= entries@.len(),
            s@ == terms_text(all.take(i as int)),
        decreases entries.len() - i,
    {
        assert(all.take(i + 1).drop_last() =~= all.take(i as int));
        if i == 0 {
            s = decimal(entries[i].term);
        } else {
            s = s.concat(" ").concat(decimal(entries[i].term).as_str());
        }
        i += 1;
    }
    assert(all.take(i as int) =~= all);
    s
}

impl BodyView {
    /// What the message says, as named values.
    pub open spec fn details(self) -> Seq<char> {
        match self {
            BodyView::RequestVoteReq { last_log_term, last_log_index } => field_text(
                "lastLogIndex"@,
                decimal_text(last_log_index as nat),
            ) + field_text("lastLogTerm"@, decimal_text(last_log_term as nat)),
            BodyView::RequestVoteRep { granted } => field_text("granted"@, bool_text(granted)),
            BodyView::AppendEntriesReq { prev_index, prev_term, entries, commit_index } => field_text(
                "prevIndex"@,
                decimal_text(prev_index as nat),
            ) + field_text("prevTerm"@, decimal_text(prev_term as nat)) + field_text(
                "entries"@,
                "["@ + terms_text(entries) + "]"@,
            ) + field_text("commitIndex"@, decimal_text(commit_index as nat)),
            BodyView::AppendEntriesRep { success, match_index } => field_text(
                "success"@,
                bool_text(success),
            ) + field_text("matchIndex"@, decimal_text(match_index as nat)),
        }
    }
}

impl MessageView {
    /// The body of the message's dialog.
    pub open spec fn details(self, now: u64) -> Seq<char> {
        "<dl class=\"dl-horizontal\">"@ + field_text("from"@, name_text(self.from)) + field_text(
            "to"@,
            name_text(self.to),
        ) + field_text("sent"@, rel_time_text(self.send_time, now)) + field_text(
            "deliver"@,
            rel_time_text(self.recv_time, now),
        ) + field_text("term"@, decimal_text(self.term as nat)) + self.body.details() + "</dl>"@
    }
}

impl Body {
    fn details(&self) -> (s: String)
        ensures
            s@ == self@.details(),
    {
        match self {
            Body::RequestVoteReq { last_log_term, last_log_index } => field(
                "lastLogIndex",
                decimal(*last_log_index as u64).as_str(),
            ).concat(field("lastLogTerm", decimal(*last_log_term).as_str()).as_str()),
            Body::RequestVoteRep { granted } => field("granted", yes_no(*granted)),
            Body::AppendEntriesReq { prev_index, prev_term, entries, commit_index } => {
                let list = "[".to_string().concat(terms(entries).as_str()).concat("]");
                field("prevIndex", decimal(*prev_index as u64).as_str()).concat(
                    field("prevTerm", decimal(*prev_term).as_str()).as_str(),
                ).concat(field("entries", list.as_str()).as_str()).concat(
                    field("commitIndex", decimal(*commit_index as u64).as_str()).as_str(),
                )
            },
            Body::AppendEntriesRep { success, match_index } => field(
                "success",
                yes_no(*success),
            ).concat(field("matchIndex", decimal(*match_index as u64).as_str()).as_str()),
        }
    }
}

impl Message {
    /// The title of the message's dialog.
    pub fn title(&self) -> (s: String)
        ensures
            s@ == self@.call_name() + " "@ + self@.direction_name(),
    {
        self.type_str().to_string().concat(" ").concat(self.direction_str())
    }

    /// The body of the message's dialog.
    pub fn details(&self, now: u64) -> (s: String)
        ensures
            s@ == self@.details(now),
    {
        "<dl class=\"dl-horizontal\">".to_string().concat(
            field("from", name(self.from).as_str()).as_str(),
        ).concat(field("to", name(self.to).as_str()).as_str()).concat(
            field("sent", rel_time(self.send_time, now).as_str()).as_str(),
        ).concat(field("deliver", rel_time(self.recv_time, now).as_str()).as_str()).concat(
            field("term", decimal(self.term).as_str()).as_str(),
        ).concat(self.body.details().as_str()).concat("</dl>")
    }
}

} // verus!
