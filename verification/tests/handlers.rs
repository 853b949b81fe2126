use raftscope::actions::cluster;
use raftscope::handlers::merge;
use raftscope::raft::{Body, LogEntry, Message, Model, ServerState, ELECTION_TIMEOUT};
use raftscope::util::{RandomSource, INF};

fn entry(term: u64) -> LogEntry {
    LogEntry { term, value: "v".to_string() }
}

fn log(terms: &[u64]) -> Vec<LogEntry> {
    terms.iter().map(|t| entry(*t)).collect()
}

fn terms(log: &[LogEntry]) -> Vec<u64> {
    log.iter().map(|e| e.term).collect()
}

fn start() -> (Model, RandomSource) {
    let mut rng = RandomSource::new();
    for _ in 0..20 {
        rng.feed(0);
    }
    let mut m = cluster(&mut rng);
    m.time = 1000;
    (m, rng)
}

fn message(from: u32, to: u32, term: u64, body: Body) -> Message {
    Message { from, to, term, send_time: 0, recv_time: 0, body }
}

#[test]
fn merge_keeps_what_agrees() {
    let mut l = log(&[1, 2, 3]);
    assert_eq!(merge(&mut l, 1, &log(&[2])), 2);
    assert_eq!(terms(&l), vec![1, 2, 3]);
}

#[test]
fn merge_overwrites_from_the_first_conflict_on() {
    let mut l = log(&[1, 2, 2, 2]);
    assert_eq!(merge(&mut l, 1, &log(&[2, 5])), 3);
    assert_eq!(terms(&l), vec![1, 2, 5]);
}

#[test]
fn merge_appends() {
    let mut l = log(&[1]);
    assert_eq!(merge(&mut l, 1, &log(&[4, 4])), 3);
    assert_eq!(terms(&l), vec![1, 4, 4]);
    // once more changes nothing
    assert_eq!(merge(&mut l, 1, &log(&[4, 4])), 3);
    assert_eq!(terms(&l), vec![1, 4, 4]);
}

#[test]
fn vote_is_granted_once_per_term() {
    let (mut m, mut rng) = start();
    let ask = Body::RequestVoteReq { last_log_term: 0, last_log_index: 0 };
    m.handle_message(1, &message(1, 2, 2, ask.clone()), &mut rng);
    assert_eq!(m.servers[1].term, 2);
    assert_eq!(m.servers[1].voted_for, Some(1));
    assert_eq!(m.servers[1].election_alarm, 1000 + ELECTION_TIMEOUT);
    assert_eq!(m.messages[0].to, 1);
    assert_eq!(m.messages[0].from, 2);
    assert_eq!(m.messages[0].body, Body::RequestVoteRep { granted: true });

    m.handle_message(1, &message(3, 2, 2, ask.clone()), &mut rng);
    assert_eq!(m.servers[1].voted_for, Some(1));
    assert_eq!(m.messages[1].body, Body::RequestVoteRep { granted: false });

    // the same candidate may ask again
    m.handle_message(1, &message(1, 2, 2, ask.clone()), &mut rng);
    assert_eq!(m.messages[2].body, Body::RequestVoteRep { granted: true });

    // and a later term brings a new vote
    m.handle_message(1, &message(3, 2, 3, ask), &mut rng);
    assert_eq!(m.servers[1].voted_for, Some(3));
    assert_eq!(m.messages[3].term, 3);
}

#[test]
fn vote_is_denied_to_the_outdated() {
    let (mut m, mut rng) = start();
    m.servers[1].log = log(&[1, 3]);
    let asks = [(2, 9), (3, 1)];
    for (last_log_term, last_log_index) in asks {
        let body = Body::RequestVoteReq { last_log_term, last_log_index };
        m.handle_message(1, &message(1, 2, 4, body), &mut rng);
        assert_eq!(m.messages.last().unwrap().body, Body::RequestVoteRep { granted: false });
        assert_eq!(m.servers[1].voted_for, None);
    }
    let body = Body::RequestVoteReq { last_log_term: 3, last_log_index: 2 };
    m.handle_message(1, &message(1, 2, 4, body), &mut rng);
    assert_eq!(m.servers[1].voted_for, Some(1));
}

#[test]
fn vote_is_denied_in_an_earlier_term() {
    let (mut m, mut rng) = start();
    m.servers[1].term = 5;
    let body = Body::RequestVoteReq { last_log_term: 9, last_log_index: 9 };
    m.handle_message(1, &message(1, 2, 4, body), &mut rng);
    assert_eq!(m.servers[1].voted_for, None);
    assert_eq!(m.messages[0].term, 5);
    assert_eq!(m.messages[0].body, Body::RequestVoteRep { granted: false });
}

#[test]
fn votes_are_counted_by_candidates_of_the_term() {
    let (mut m, mut rng) = start();
    m.timeout(0, &mut rng);
    m.handle_message(0, &message(2, 1, 1, Body::RequestVoteRep { granted: true }), &mut rng);
    assert!(!m.servers[0].vote_granted[&2]);
    m.handle_message(0, &message(2, 1, 2, Body::RequestVoteRep { granted: true }), &mut rng);
    assert!(m.servers[0].vote_granted[&2]);
    assert_eq!(m.servers[0].rpc_due[&2], INF);
    // a later term ends the candidacy
    m.handle_message(0, &message(3, 1, 7, Body::RequestVoteRep { granted: false }), &mut rng);
    assert_eq!(m.servers[0].state, ServerState::Follower);
    assert_eq!(m.servers[0].term, 7);
}

#[test]
fn entries_are_taken_up_behind_an_agreeing_one() {
    let (mut m, mut rng) = start();
    m.servers[1].log = log(&[1, 1]);
    m.servers[1].state = ServerState::Candidate;
    m.servers[1].term = 3;
    let body = Body::AppendEntriesReq {
        prev_index: 1,
        prev_term: 1,
        entries: log(&[3]),
        commit_index: 2,
    };
    m.handle_message(1, &message(1, 2, 3, body), &mut rng);
    assert_eq!(terms(&m.servers[1].log), vec![1, 3]);
    assert_eq!(m.servers[1].state, ServerState::Follower);
    assert_eq!(m.servers[1].commit_index, 2);
    assert_eq!(m.servers[1].election_alarm, 1000 + ELECTION_TIMEOUT);
    assert_eq!(m.messages[0].body, Body::AppendEntriesRep { success: true, match_index: 2 });
}

#[test]
fn entries_behind_a_gap_or_a_conflict_are_refused() {
    let (mut m, mut rng) = start();
    m.servers[1].log = log(&[1]);
    for (prev_index, prev_term) in [(2, 1), (1, 2)] {
        let body = Body::AppendEntriesReq {
            prev_index,
            prev_term,
            entries: log(&[3]),
            commit_index: 1,
        };
        m.handle_message(1, &message(1, 2, 3, body), &mut rng);
        assert_eq!(terms(&m.servers[1].log), vec![1]);
        assert_eq!(m.servers[1].commit_index, 0);
        assert_eq!(
            m.messages.last().unwrap().body,
            Body::AppendEntriesRep { success: false, match_index: 0 }
        );
    }
}

#[test]
fn entries_of_an_earlier_term_are_refused() {
    let (mut m, mut rng) = start();
    m.servers[1].term = 5;
    m.servers[1].state = ServerState::Candidate;
    let body = Body::AppendEntriesReq {
        prev_index: 0,
        prev_term: 0,
        entries: log(&[3]),
        commit_index: 1,
    };
    m.handle_message(1, &message(1, 2, 3, body), &mut rng);
    assert_eq!(m.servers[1].log.len(), 0);
    assert_eq!(m.servers[1].state, ServerState::Candidate);
    assert_eq!(m.messages[0].term, 5);
    assert_eq!(m.messages[0].body, Body::AppendEntriesRep { success: false, match_index: 0 });
}

#[test]
fn leader_takes_note_of_answers() {
    let (mut m, mut rng) = start();
    m.servers[0].state = ServerState::Leader;
    m.servers[0].term = 2;
    m.servers[0].log = log(&[2, 2, 2]);
    m.servers[0].next_index.insert(2, 3);
    m.servers[0].rpc_due.insert(2, 77);

    let no = Body::AppendEntriesRep { success: false, match_index: 0 };
    m.handle_message(0, &message(2, 1, 2, no.clone()), &mut rng);
    assert_eq!(m.servers[0].next_index[&2], 2);
    assert_eq!(m.servers[0].match_index[&2], 0);
    assert_eq!(m.servers[0].rpc_due[&2], 0);
    m.handle_message(0, &message(2, 1, 2, no.clone()), &mut rng);
    m.handle_message(0, &message(2, 1, 2, no), &mut rng);
    assert_eq!(m.servers[0].next_index[&2], 1);

    let yes = Body::AppendEntriesRep { success: true, match_index: 2 };
    m.handle_message(0, &message(2, 1, 2, yes), &mut rng);
    assert_eq!(m.servers[0].match_index[&2], 2);
    assert_eq!(m.servers[0].next_index[&2], 3);

    // an answer that comes late does not take the match back
    let late = Body::AppendEntriesRep { success: true, match_index: 1 };
    m.handle_message(0, &message(2, 1, 2, late), &mut rng);
    assert_eq!(m.servers[0].match_index[&2], 2);
    assert_eq!(m.servers[0].next_index[&2], 2);
}

#[test]
fn stopped_servers_hear_nothing() {
    let (mut m, mut rng) = start();
    m.stop(1);
    let before = m.clone();
    let body = Body::RequestVoteReq { last_log_term: 0, last_log_index: 0 };
    m.handle_message(1, &message(1, 2, 9, body), &mut rng);
    assert_eq!(m, before);
}
