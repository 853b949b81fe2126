use raftscope::actions::cluster;
use raftscope::raft::{
    server, Body, LogEntry, Model, ServerState, ELECTION_TIMEOUT, MAX_RPC_LATENCY,
};
use raftscope::util::{RandomSource, INF};

fn start() -> (Model, RandomSource) {
    let mut rng = RandomSource::new();
    for _ in 0..20 {
        rng.feed(0);
    }
    let mut m = cluster(&mut rng);
    m.time = 1000;
    (m, rng)
}

fn with_alarms(alarms: [u64; 5]) -> Model {
    let (mut m, _) = start();
    for i in 0..5 {
        m.servers[i].election_alarm = alarms[i];
    }
    m
}

fn alarms(m: &Model) -> Vec<u64> {
    m.servers.iter().map(|s| s.election_alarm).collect()
}

#[test]
fn stop_and_resume() {
    let (mut m, mut rng) = start();
    m.stop(2);
    assert_eq!(m.servers[2].state, ServerState::Stopped);
    assert_eq!(m.servers[2].election_alarm, 0);
    m.resume(2, &mut rng);
    assert_eq!(m.servers[2].state, ServerState::Follower);
    assert_eq!(m.servers[2].election_alarm, 1000 + ELECTION_TIMEOUT);
}

#[test]
fn restart_keeps_term_vote_and_log() {
    let (mut m, mut rng) = start();
    m.servers[2].state = ServerState::Leader;
    m.servers[2].term = 6;
    m.servers[2].voted_for = Some(3);
    m.servers[2].log.push(LogEntry { term: 6, value: "v".to_string() });
    m.servers[2].commit_index = 1;
    m.restart(2, &mut rng);
    let s = &m.servers[2];
    assert_eq!(s.state, ServerState::Follower);
    assert_eq!(s.term, 6);
    assert_eq!(s.voted_for, Some(3));
    assert_eq!(s.log.len(), 1);
    assert_eq!(s.commit_index, 1);
    assert_eq!(s.election_alarm, 1000 + ELECTION_TIMEOUT);
}

#[test]
fn resume_all_resumes_even_leaders() {
    let (mut m, mut rng) = start();
    m.stop(0);
    m.servers[1].state = ServerState::Leader;
    m.resume_all(&mut rng);
    for s in &m.servers {
        assert_eq!(s.state, ServerState::Follower);
        assert_eq!(s.election_alarm, 1000 + ELECTION_TIMEOUT);
    }
}

#[test]
fn drop_takes_one_message_off() {
    let (mut m, mut rng) = start();
    for to in 2..=4 {
        m.send_message(1, to, 1, Body::RequestVoteRep { granted: false }, &mut rng);
    }
    m.drop(1);
    let to: Vec<u32> = m.messages.iter().map(|m| m.to).collect();
    assert_eq!(to, vec![2, 4]);
    m.drop(2);
    assert_eq!(m.messages.len(), 2);
}

#[test]
fn timeout_makes_even_a_leader_stand() {
    let (mut m, mut rng) = start();
    m.servers[0].state = ServerState::Leader;
    m.servers[0].election_alarm = INF;
    m.timeout(0, &mut rng);
    assert_eq!(m.servers[0].state, ServerState::Candidate);
    assert_eq!(m.servers[0].term, 2);
    assert_eq!(m.servers[0].election_alarm, 1000 + ELECTION_TIMEOUT);
}

#[test]
fn only_leaders_take_requests() {
    let (mut m, _) = start();
    m.client_request(0);
    assert_eq!(m.servers[0].log.len(), 0);
    m.servers[0].state = ServerState::Leader;
    m.servers[0].term = 3;
    m.client_request(0);
    assert_eq!(m.servers[0].log, vec![LogEntry { term: 3, value: "v".to_string() }]);
}

#[test]
fn spread_moves_the_earliest_ahead_if_there_is_time() {
    let mut m = with_alarms([50000, 40000, 41000, INF, 500]);
    m.spread_timers();
    assert_eq!(alarms(&m), vec![50000, 40000 - MAX_RPC_LATENCY, 41000, INF, 500]);
}

#[test]
fn spread_moves_the_others_back_if_there_is_not() {
    let mut m = with_alarms([12000, 10000, 25000, 24999, 500]);
    m.spread_timers();
    assert_eq!(
        alarms(&m),
        vec![12000 + MAX_RPC_LATENCY, 10000, 25000, 24999 + MAX_RPC_LATENCY, 500]
    );
}

#[test]
fn spread_leaves_timers_alone_that_are_apart() {
    let mut m = with_alarms([40000, 25000, 90000, INF, 500]);
    m.spread_timers();
    assert_eq!(alarms(&m), vec![40000, 25000, 90000, INF, 500]);
    let mut m = with_alarms([40000, INF, 500, 1000, INF]);
    m.spread_timers();
    assert_eq!(alarms(&m), vec![40000, INF, 500, 1000, INF]);
}

#[test]
fn spread_leaves_the_first_alone_in_front() {
    for before in [
        [50000, 40000, 40001, INF, 500],
        [12000, 10000, 25000, 24999, 500],
        [40000, 25000, 90000, INF, 500],
    ] {
        let mut m = with_alarms(before);
        m.spread_timers();
        let after = alarms(&m);
        for i in [0, 2, 3] {
            assert!(after[i] >= after[1] + MAX_RPC_LATENCY);
        }
    }
}

#[test]
fn spread_timers_stay_as_they_are() {
    for first in [[50000, 40000, 41000, INF, 500], [12000, 10000, 25000, 24999, 500]] {
        let mut m = with_alarms(first);
        m.spread_timers();
        let once = alarms(&m);
        assert_ne!(once, first.to_vec());
        m.spread_timers();
        assert_eq!(alarms(&m), once);
    }
}

#[test]
fn equal_timers_move_together() {
    let mut m = with_alarms([90000, 40000, 40000, INF, 500]);
    m.spread_timers();
    let once = 40000 - MAX_RPC_LATENCY;
    assert_eq!(alarms(&m), vec![90000, once, once, INF, 500]);
    m.spread_timers();
    let twice = once - MAX_RPC_LATENCY;
    assert_eq!(alarms(&m), vec![90000, twice, twice, INF, 500]);
}

#[test]
fn aligned_timers_ring_together() {
    let mut m = with_alarms([50000, 40000, 41000, INF, 500]);
    m.align_timers();
    let first = 40000 - MAX_RPC_LATENCY;
    assert_eq!(alarms(&m), vec![50000, first, first, INF, 500]);
}

#[test]
fn align_needs_two_timers() {
    let mut m = with_alarms([50000, INF, INF, INF, 500]);
    m.align_timers();
    assert_eq!(alarms(&m), vec![50000, INF, INF, INF, 500]);
}

#[test]
fn scenario_sets_the_stage() {
    let (mut m, mut rng) = start();
    m.setup_log_replication_scenario(&mut rng);
    let s = &m.servers[0];
    assert_eq!(s.state, ServerState::Leader);
    assert_eq!(s.term, 2);
    let terms: Vec<u64> = s.log.iter().map(|e| e.term).collect();
    assert_eq!(terms, vec![2, 2, 2]);
    assert_eq!(s.next_index[&2], 1);
    assert_eq!(m.servers[1].state, ServerState::Follower);
    for i in 2..5 {
        assert_eq!(m.servers[i].state, ServerState::Stopped);
    }
    for i in 1..5 {
        assert_eq!(m.servers[i].term, 2);
        assert_eq!(m.servers[i].voted_for, Some(1));
    }
    assert_eq!(m.leader_index(), Some(0));
}

#[test]
fn leader_index_prefers_the_latest_term() {
    let (mut m, _) = start();
    assert_eq!(m.leader_index(), None);
    m.servers[1].state = ServerState::Leader;
    m.servers[1].term = 2;
    m.servers[3].state = ServerState::Leader;
    m.servers[3].term = 5;
    m.servers[4].state = ServerState::Leader;
    m.servers[4].term = 5;
    assert_eq!(m.leader_index(), Some(3));
    m.servers[1].term = 0;
    m.servers[3].state = ServerState::Follower;
    m.servers[4].state = ServerState::Follower;
    assert_eq!(m.leader_index(), Some(1));
    m.servers[4].state = ServerState::Leader;
    m.servers[4].term = 0;
    assert_eq!(m.leader_index(), Some(1));
    m.servers[4].term = 1;
    assert_eq!(m.leader_index(), Some(4));
}

#[test]
fn leader_of_term_zero_is_found() {
    let mut rng = RandomSource::new();
    let mut m = Model::new();
    m.servers.push(server(1, vec![], &mut rng));
    assert_eq!(m.leader_index(), None);
    m.servers[0].state = ServerState::Leader;
    m.servers[0].term = 0;
    assert_eq!(m.leader_index(), Some(0));
}
