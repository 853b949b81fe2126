use raftscope::actions::cluster;
use raftscope::details::name;
use raftscope::figures::{term_color, Progress, VoteMark};
use raftscope::raft::{Body, LogEntry, Message, Model, ServerState};
use raftscope::text::{decimal, rel_time, yes_no};
use raftscope::util::{RandomSource, INF};

fn start() -> Model {
    let mut rng = RandomSource::new();
    for _ in 0..5 {
        rng.feed(0);
    }
    cluster(&mut rng)
}

fn entry(term: u64) -> LogEntry {
    LogEntry { term, value: "v".to_string() }
}

fn message(body: Body) -> Message {
    Message { from: 1, to: 2, term: 3, send_time: 1000, recv_time: 13500, body }
}

#[test]
fn numbers_in_decimal() {
    assert_eq!(decimal(0), "0");
    assert_eq!(decimal(9), "9");
    assert_eq!(decimal(10), "10");
    assert_eq!(decimal(9007199254740992), "9007199254740992");
    assert_eq!(decimal(u64::MAX), format!("{}", u64::MAX));
    assert_eq!(yes_no(true), "true");
    assert_eq!(yes_no(false), "false");
    assert_eq!(name(12), "S12");
}

#[test]
fn times_relative_to_now() {
    assert_eq!(rel_time(INF, 5), "infinity");
    assert_eq!(rel_time(12345, 0), "+12.345ms");
    assert_eq!(rel_time(0, 12345), "-12.345ms");
    assert_eq!(rel_time(7, 7), "0.000ms");
    assert_eq!(rel_time(1007, 1000), "+0.007ms");
    assert_eq!(rel_time(1090, 1000), "+0.090ms");
}

#[test]
fn names_of_states_and_messages() {
    assert_eq!(ServerState::Stopped.as_str(), "stopped");
    assert_eq!(ServerState::Follower.as_str(), "follower");
    assert_eq!(ServerState::Candidate.as_str(), "candidate");
    assert_eq!(ServerState::Leader.as_str(), "leader");
    let all = [
        (Body::RequestVoteReq { last_log_term: 1, last_log_index: 1 }, "RequestVote", "request"),
        (Body::RequestVoteRep { granted: true }, "RequestVote", "reply"),
        (
            Body::AppendEntriesReq {
                prev_index: 0,
                prev_term: 0,
                entries: vec![],
                commit_index: 0,
            },
            "AppendEntries",
            "request",
        ),
        (Body::AppendEntriesRep { success: true, match_index: 1 }, "AppendEntries", "reply"),
    ];
    for (body, kind, direction) in all {
        let m = message(body);
        assert_eq!(m.type_str(), kind);
        assert_eq!(m.direction_str(), direction);
        assert_eq!(m.is_reply(), direction == "reply");
        assert_eq!(m.is_good_news(), direction == "reply");
        assert_eq!(m.title(), format!("{} {}", kind, direction));
    }
    assert!(!message(Body::RequestVoteRep { granted: false }).is_good_news());
    assert!(!message(Body::AppendEntriesRep { success: false, match_index: 0 }).is_good_news());
}

#[test]
fn figures_of_messages() {
    let mut m = Model::new();
    m.messages = vec![
        message(Body::RequestVoteReq { last_log_term: 1, last_log_index: 1 }),
        message(Body::RequestVoteRep { granted: false }),
        message(Body::AppendEntriesRep { success: true, match_index: 1 }),
    ];
    let f = m.message_figure(0, true);
    assert_eq!((f.call, f.direction), ("RequestVote", "request"));
    assert_eq!((f.mark, f.arrow), (None, true));
    let f = m.message_figure(1, false);
    assert_eq!((f.call, f.direction), ("RequestVote", "reply"));
    assert_eq!((f.mark, f.arrow), (Some(false), false));
    let f = m.message_figure(2, false);
    assert_eq!((f.call, f.direction), ("AppendEntries", "reply"));
    assert_eq!((f.mark, f.arrow), (Some(true), false));
}

#[test]
fn details_of_messages() {
    let head = "<dl class=\"dl-horizontal\"><dt>from</dt><dd>S1</dd><dt>to</dt><dd>S2</dd>\
                <dt>sent</dt><dd>-1.000ms</dd><dt>deliver</dt><dd>+11.500ms</dd>\
                <dt>term</dt><dd>3</dd>";
    let all = [
        (
            Body::RequestVoteReq { last_log_term: 4, last_log_index: 17 },
            "<dt>lastLogIndex</dt><dd>17</dd><dt>lastLogTerm</dt><dd>4</dd>",
        ),
        (Body::RequestVoteRep { granted: true }, "<dt>granted</dt><dd>true</dd>"),
        (
            Body::AppendEntriesReq {
                prev_index: 6,
                prev_term: 2,
                entries: vec![entry(2), entry(3), entry(30)],
                commit_index: 5,
            },
            "<dt>prevIndex</dt><dd>6</dd><dt>prevTerm</dt><dd>2</dd>\
             <dt>entries</dt><dd>[2 3 30]</dd><dt>commitIndex</dt><dd>5</dd>",
        ),
        (
            Body::AppendEntriesReq {
                prev_index: 0,
                prev_term: 0,
                entries: vec![],
                commit_index: 0,
            },
            "<dt>prevIndex</dt><dd>0</dd><dt>prevTerm</dt><dd>0</dd>\
             <dt>entries</dt><dd>[]</dd><dt>commitIndex</dt><dd>0</dd>",
        ),
        (
            Body::AppendEntriesRep { success: false, match_index: 0 },
            "<dt>success</dt><dd>false</dd><dt>matchIndex</dt><dd>0</dd>",
        ),
    ];
    for (body, tail) in all {
        assert_eq!(message(body).details(2000), format!("{}{}</dl>", head, tail));
    }
}

#[test]
fn details_of_servers() {
    let mut m = start();
    m.servers[0].peers = vec![2, 3];
    m.servers[0].rpc_due.insert(3, INF);
    m.servers[0].vote_granted.insert(3, true);
    m.servers[0].match_index.insert(3, 4);
    m.servers[0].next_index.insert(3, 5);
    assert_eq!(m.servers[0].title(), "Server 1");
    let expected = "<dl class=\"dl-horizontal\"><dt>state</dt><dd>follower</dd>\
        <dt>currentTerm</dt><dd>1</dd><dt>votedFor</dt><dd>null</dd>\
        <dt>commitIndex</dt><dd>0</dd><dt>electionAlarm</dt><dd>+98.000ms</dd>\
        <dt>peers</dt><dd><table class=\"table table-condensed\">\
        <tr><th>peer</th><th>next index</th><th>match index</th><th>vote granted</th>\
        <th>RPC due</th><th>heartbeat due</th></tr>\
        <tr><td>S2</td><td>1</td><td>0</td><td>false</td><td>-2.000ms</td><td>-2.000ms</td></tr>\
        <tr><td>S3</td><td>5</td><td>4</td><td>true</td><td>infinity</td><td>-2.000ms</td></tr>\
        </table></dd></dl>";
    assert_eq!(m.servers[0].details(2000), expected);
    m.servers[0].voted_for = Some(3);
    assert!(m.servers[0].details(2000).contains("<dt>votedFor</dt><dd>3</dd>"));
}

#[test]
fn colors_of_terms() {
    let colors = ["#66c2a5", "#fc8d62", "#8da0cb", "#e78ac3", "#a6d854", "#ffd92f"];
    for t in 0..12 {
        assert_eq!(term_color(t as u64), colors[t % 6]);
    }
}

#[test]
fn figure_of_a_candidate_shows_the_votes() {
    let mut m = start();
    m.time = 30000;
    m.servers[0].state = ServerState::Candidate;
    m.servers[0].term = 2;
    m.servers[0].vote_granted.insert(2, true);
    m.servers[2].voted_for = Some(1);
    m.servers[2].term = 2;
    m.servers[3].voted_for = Some(1);
    let f = m.server_figure(0);
    assert_eq!(f.id, 1);
    assert_eq!(f.term, 2);
    assert_eq!(f.fill, "#8da0cb");
    assert_eq!(f.timer_left, 70000);
    let marks: Vec<(u32, VoteMark)> = f.votes.iter().map(|v| (v.peer, v.mark)).collect();
    assert_eq!(
        marks,
        vec![
            (1, VoteMark::Have),
            (2, VoteMark::Have),
            (3, VoteMark::Coming),
            (4, VoteMark::No),
            (5, VoteMark::No),
        ]
    );
    assert_eq!(VoteMark::Have.as_str(), "have");
    assert_eq!(VoteMark::Coming.as_str(), "coming");
    assert_eq!(VoteMark::No.as_str(), "no");
}

#[test]
fn figure_of_others_shows_no_votes() {
    let mut m = start();
    m.servers[1].state = ServerState::Stopped;
    m.servers[1].election_alarm = 0;
    m.servers[2].election_alarm = INF;
    m.time = 10;
    let f = m.server_figure(1);
    assert_eq!(f.fill, "gray");
    assert_eq!(f.timer_left, 0);
    assert_eq!(f.votes.len(), 0);
    assert_eq!(m.server_figure(2).timer_left, 200000);
}

#[test]
fn log_rows_show_entries_and_progress() {
    let mut m = start();
    m.servers[0].log = vec![entry(1), entry(8)];
    m.servers[0].commit_index = 1;
    let rows = m.log_rows();
    assert_eq!(rows.len(), 5);
    assert!(rows.iter().all(|r| r.progress.is_none()));
    let e = &rows[0].entries;
    assert_eq!(e.len(), 2);
    assert_eq!((e[0].index, e[0].term, e[0].committed), (1, 1, true));
    assert_eq!((e[1].index, e[1].term, e[1].committed), (2, 8, false));
    assert_eq!((e[0].fill, e[1].fill), ("#fc8d62", "#8da0cb"));
    assert_eq!((e[0].class(), e[0].dashes()), ("committed", "1 0"));
    assert_eq!((e[1].class(), e[1].dashes()), ("uncommitted", "5 5"));

    m.servers[0].state = ServerState::Leader;
    m.servers[0].match_index.insert(3, 1);
    m.servers[0].next_index.insert(3, 2);
    m.servers[0].match_index.remove(&4);
    m.servers[0].next_index.remove(&4);
    let rows = m.log_rows();
    assert_eq!(rows[0].progress, None);
    assert_eq!(rows[2].progress, Some(Progress { match_index: 1, next_index: 2 }));
    assert_eq!(rows[3].progress, Some(Progress { match_index: 0, next_index: 1 }));
    assert_eq!(rows[2].id, 3);
    assert_eq!(rows[0].state, ServerState::Leader);
}
