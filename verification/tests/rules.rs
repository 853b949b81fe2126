use raftscope::actions::cluster;
use raftscope::raft::{
    log_term, Body, LogEntry, Message, Model, ServerState, ELECTION_TIMEOUT, RPC_TIMEOUT,
};
use raftscope::util::{RandomSource, INF};

fn entry(term: u64) -> LogEntry {
    LogEntry { term, value: "v".to_string() }
}

/// The draws of a source that is fed nothing but zeros.
fn zeros(n: usize) -> RandomSource {
    let mut rng = RandomSource::new();
    for _ in 0..n {
        rng.feed(0);
    }
    rng
}

fn leader_with(terms: &[u64]) -> Model {
    let mut rng = zeros(5);
    let mut m = cluster(&mut rng);
    for t in terms {
        m.servers[0].log.push(entry(*t));
    }
    m.servers[0].state = ServerState::Candidate;
    m.servers[0].term = 4;
    m.servers[0].voted_for = Some(1);
    m.servers[0].vote_granted.insert(2, true);
    m.servers[0].vote_granted.insert(3, true);
    m.become_leader(0);
    m
}

#[test]
fn log_term_is_zero_outside_the_log() {
    let log = vec![entry(3), entry(7)];
    assert_eq!(log_term(&log, 0), 0);
    assert_eq!(log_term(&log, 1), 3);
    assert_eq!(log_term(&log, 2), 7);
    assert_eq!(log_term(&log, 3), 0);
}

#[test]
fn cluster_starts_as_followers_of_term_one() {
    let mut rng = RandomSource::new();
    let m = cluster(&mut rng);
    assert_eq!(m.time, 0);
    assert_eq!(m.servers.len(), 5);
    assert_eq!(m.servers[0].election_alarm, 185979);
    assert_eq!(m.servers[1].election_alarm, 139430);
    assert_eq!(m.servers[2].election_alarm, 148058);
    assert_eq!(m.servers[3].election_alarm, 118894);
    assert_eq!(m.servers[4].election_alarm, 117546);
    assert_eq!(m.servers[2].peers, vec![1, 2, 4, 5]);
    for s in &m.servers {
        assert_eq!(s.state, ServerState::Follower);
        assert_eq!(s.term, 1);
        assert_eq!(s.voted_for, None);
        assert_eq!(s.log.len(), 0);
        assert_eq!(s.commit_index, 0);
        for p in &s.peers {
            assert!(!s.vote_granted[p]);
            assert_eq!(s.match_index[p], 0);
            assert_eq!(s.next_index[p], 1);
            assert_eq!(s.rpc_due[p], 0);
            assert_eq!(s.heartbeat_due[p], 0);
        }
    }
}

#[test]
fn messages_are_stamped() {
    let mut rng = RandomSource::new();
    let mut m = Model::new();
    m.time = 1000;
    m.send_message(1, 2, 3, Body::RequestVoteRep { granted: true }, &mut rng);
    assert_eq!(
        m.messages,
        vec![Message {
            from: 1,
            to: 2,
            term: 3,
            send_time: 1000,
            recv_time: 15298,
            body: Body::RequestVoteRep { granted: true },
        }]
    );
}

#[test]
fn delays_stop_at_the_end_of_the_clock() {
    let mut rng = RandomSource::new();
    let mut m = cluster(&mut rng);
    m.time = u64::MAX - 1;
    m.send_message(1, 2, 3, Body::RequestVoteRep { granted: true }, &mut rng);
    assert_eq!(m.messages[0].recv_time, u64::MAX);
    m.resume(0, &mut rng);
    assert_eq!(m.servers[0].election_alarm, u64::MAX);
}

#[test]
fn stepping_down_sets_a_dead_timer() {
    let mut rng = zeros(9);
    let mut m = cluster(&mut rng);
    m.time = 5000;
    m.servers[0].state = ServerState::Leader;
    m.servers[0].voted_for = Some(1);
    m.servers[0].election_alarm = INF;
    m.step_down(0, 9, &mut rng);
    assert_eq!(m.servers[0].state, ServerState::Follower);
    assert_eq!(m.servers[0].term, 9);
    assert_eq!(m.servers[0].voted_for, None);
    assert_eq!(m.servers[0].election_alarm, 5000 + ELECTION_TIMEOUT);

    m.servers[1].election_alarm = 5000;
    m.step_down(1, 9, &mut rng);
    assert_eq!(m.servers[1].election_alarm, 5000 + ELECTION_TIMEOUT);
    m.servers[2].election_alarm = 5001;
    m.step_down(2, 9, &mut rng);
    assert_eq!(m.servers[2].election_alarm, 5001);
}

#[test]
fn elections_start_when_the_timer_runs_out() {
    let mut rng = zeros(9);
    let mut m = cluster(&mut rng);
    let before = m.clone();
    m.time = ELECTION_TIMEOUT - 1;
    m.start_new_election(0, &mut rng);
    assert_eq!(m.servers, before.servers);

    m.time = ELECTION_TIMEOUT;
    m.servers[0].match_index.insert(2, 7);
    m.start_new_election(0, &mut rng);
    let s = &m.servers[0];
    assert_eq!(s.state, ServerState::Candidate);
    assert_eq!(s.term, 2);
    assert_eq!(s.voted_for, Some(1));
    assert_eq!(s.election_alarm, 2 * ELECTION_TIMEOUT);
    assert_eq!(s.match_index[&2], 0);
}

#[test]
fn leaders_and_stopped_servers_do_not_stand() {
    let mut rng = zeros(9);
    let mut m = cluster(&mut rng);
    m.time = u64::MAX;
    m.servers[0].state = ServerState::Leader;
    m.servers[1].state = ServerState::Stopped;
    let before = m.clone();
    m.start_new_election(0, &mut rng);
    m.start_new_election(1, &mut rng);
    assert_eq!(m, before);
}

#[test]
fn candidates_ask_each_peer_once_per_timeout() {
    let mut rng = zeros(9);
    let mut m = cluster(&mut rng);
    m.servers[0].log.push(entry(1));
    m.timeout(0, &mut rng);
    m.send_request_vote(0, 2, &mut rng);
    m.send_request_vote(0, 2, &mut rng);
    assert_eq!(m.messages.len(), 1);
    assert_eq!(m.messages[0].from, 1);
    assert_eq!(m.messages[0].to, 2);
    assert_eq!(m.messages[0].term, 2);
    assert_eq!(
        m.messages[0].body,
        Body::RequestVoteReq { last_log_term: 1, last_log_index: 1 }
    );
    assert_eq!(m.servers[0].rpc_due[&2], RPC_TIMEOUT);
    m.time = RPC_TIMEOUT;
    m.send_request_vote(0, 2, &mut rng);
    assert_eq!(m.messages.len(), 2);
}

#[test]
fn two_votes_besides_its_own_make_a_leader() {
    let mut rng = zeros(9);
    let mut m = cluster(&mut rng);
    m.timeout(0, &mut rng);
    m.servers[0].vote_granted.insert(2, true);
    m.become_leader(0);
    assert_eq!(m.servers[0].state, ServerState::Candidate);
    m.servers[0].vote_granted.insert(5, true);
    m.become_leader(0);
    let s = &m.servers[0];
    assert_eq!(s.state, ServerState::Leader);
    assert_eq!(s.election_alarm, INF);
    for p in &s.peers {
        assert_eq!(s.next_index[p], 1);
        assert_eq!(s.rpc_due[p], INF);
        assert_eq!(s.heartbeat_due[p], 0);
    }
}

#[test]
fn leaders_look_for_the_point_of_agreement_without_entries() {
    let mut rng = zeros(3);
    let mut m = leader_with(&[1, 2, 4]);
    m.servers[0].commit_index = 2;
    m.servers[0].next_index.insert(2, 3);
    m.send_append_entries(0, 2, &mut rng);
    assert_eq!(
        m.messages[0].body,
        Body::AppendEntriesReq { prev_index: 2, prev_term: 2, entries: vec![], commit_index: 2 }
    );
    assert_eq!(m.servers[0].rpc_due[&2], RPC_TIMEOUT);
    assert_eq!(m.servers[0].heartbeat_due[&2], ELECTION_TIMEOUT / 2);
}

#[test]
fn leaders_send_one_entry_at_a_time() {
    let mut rng = zeros(3);
    let mut m = leader_with(&[1, 2, 4]);
    m.servers[0].commit_index = 3;
    m.servers[0].next_index.insert(2, 2);
    m.servers[0].match_index.insert(2, 1);
    m.send_append_entries(0, 2, &mut rng);
    assert_eq!(
        m.messages[0].body,
        Body::AppendEntriesReq {
            prev_index: 1,
            prev_term: 1,
            entries: vec![entry(2)],
            commit_index: 2,
        }
    );
    // nothing is due until the heartbeat is
    m.send_append_entries(0, 2, &mut rng);
    assert_eq!(m.messages.len(), 1);
    m.servers[0].rpc_due.insert(2, 0);
    m.send_append_entries(0, 2, &mut rng);
    assert_eq!(m.messages.len(), 2);
}

#[test]
fn majority_commits_entries_of_the_own_term() {
    let mut m = leader_with(&[1, 4, 4]);
    m.servers[0].match_index.insert(2, 2);
    m.advance_commit_index(0);
    assert_eq!(m.servers[0].commit_index, 0);
    m.servers[0].match_index.insert(3, 3);
    m.advance_commit_index(0);
    assert_eq!(m.servers[0].commit_index, 2);
    m.servers[0].match_index.insert(2, 3);
    m.advance_commit_index(0);
    assert_eq!(m.servers[0].commit_index, 3);
}

#[test]
fn entries_of_earlier_terms_are_not_committed_by_counting() {
    let mut m = leader_with(&[1, 2]);
    for p in 2..=5 {
        m.servers[0].match_index.insert(p, 2);
    }
    m.advance_commit_index(0);
    assert_eq!(m.servers[0].commit_index, 0);
}

#[test]
fn only_leaders_commit() {
    let mut m = leader_with(&[4]);
    for p in 2..=5 {
        m.servers[0].match_index.insert(p, 1);
    }
    m.servers[0].state = ServerState::Follower;
    m.advance_commit_index(0);
    assert_eq!(m.servers[0].commit_index, 0);
}
