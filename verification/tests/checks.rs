use raftscope::actions::cluster;
use raftscope::raft::{Body, Message, Model, ServerState};
use raftscope::state::State;
use raftscope::util::RandomSource;

fn start() -> Model {
    let mut rng = RandomSource::new();
    cluster(&mut rng)
}

fn message(from: u32, to: u32, body: Body) -> Message {
    Message { from, to, term: 1, send_time: 0, recv_time: 0, body }
}

#[test]
fn missing_entries_for_peers_are_found() {
    let mut m = start();
    assert!(m.servers[0].is_keyed());
    m.servers[0].rpc_due.remove(&4);
    assert!(!m.servers[0].is_keyed());
    // a follower does not need it, a candidate does
    assert!(m.servers[0].is_able(1000));
    m.servers[0].state = ServerState::Candidate;
    assert!(!m.servers[0].is_able(1000));
    assert!(!m.can_update(&RandomSource::new()));
    // whoever stands for election anew makes new entries
    m.servers[0].election_alarm = 1000;
    assert!(m.servers[0].is_able(1000));
    assert!(!m.servers[0].is_able(999));
}

#[test]
fn indexes_out_of_reach_are_found() {
    let mut m = start();
    m.servers[0].next_index.insert(2, 0);
    assert!(m.servers[0].is_able(0));
    m.servers[0].state = ServerState::Leader;
    assert!(!m.servers[0].is_able(0));
    m.servers[0].next_index.insert(2, 2);
    assert!(!m.servers[0].is_able(0));
    // nothing is written to a peer before the heartbeat is due
    m.servers[0].heartbeat_due.insert(2, 1000);
    assert!(m.servers[0].is_able(0));
    m.servers[0].heartbeat_due.insert(2, 0);
    m.servers[0].next_index.insert(2, 1);
    assert!(m.servers[0].is_able(0));
    m.servers[0].match_index.insert(2, usize::MAX);
    assert!(!m.servers[0].is_able(0));
    assert!(!m.can_update(&RandomSource::new()));
}

#[test]
fn too_few_replicas_are_found() {
    let mut m = start();
    m.servers[0].peers = vec![2];
    assert!(m.servers[0].is_able(0));
    for p in [2, 3, 4] {
        m.servers[0].match_index.remove(&p);
    }
    assert!(!m.servers[0].is_able(0));
}

#[test]
fn the_last_term_is_found() {
    let rng = RandomSource::new();
    let mut m = start();
    m.servers[3].term = u64::MAX;
    m.time = 100000;
    assert!(m.can_update(&rng));
    m.time = 200000;
    assert!(!m.can_update(&rng));
    m.servers[3].state = ServerState::Stopped;
    assert!(m.can_update(&rng));
}

#[test]
fn messages_that_cannot_be_handled_are_found() {
    let rng = RandomSource::new();
    let mut m = start();
    m.messages.push(message(9, 1, Body::AppendEntriesRep { success: false, match_index: 0 }));
    assert!(m.can_update(&rng));
    // only a leader takes note of an answer, if it is to its term
    m.servers[0].state = ServerState::Leader;
    m.servers[0].term = 1;
    assert!(!m.can_update(&rng));
    m.messages[0].from = 2;
    assert!(m.can_update(&rng));
    m.messages[0].body = Body::AppendEntriesRep { success: true, match_index: usize::MAX };
    assert!(!m.can_update(&rng));
    m.messages[0].term = 0;
    assert!(m.can_update(&rng));
    m.messages[0].term = 1;
    m.messages[0].to = 77;
    assert!(m.can_update(&rng));
}

#[test]
fn requests_from_beyond_the_log_can_be_handled() {
    let m = start();
    let body = Body::AppendEntriesReq {
        prev_index: usize::MAX,
        prev_term: 0,
        entries: vec![],
        commit_index: usize::MAX,
    };
    assert!(m.servers[0].can_handle(&message(2, 1, body)));
}

#[test]
fn what_can_be_handled_depends_on_what_came_before() {
    let rng = RandomSource::new();
    let mut m = start();
    m.servers[0].state = ServerState::Leader;
    m.servers[0].term = 1;
    m.servers[0].heartbeat_due.values_mut().for_each(|t| *t = 1000);
    m.messages.push(message(9, 1, Body::AppendEntriesRep { success: false, match_index: 0 }));
    assert!(!m.can_update(&rng));
    // a later term comes first, and the leader steps down
    let mut news = message(2, 1, Body::RequestVoteReq { last_log_term: 0, last_log_index: 0 });
    news.term = 2;
    m.messages.insert(0, news);
    assert!(m.can_update(&rng));
    m.messages.swap(0, 1);
    assert!(!m.can_update(&rng));
}

#[test]
fn asking_changes_nothing() {
    let mut rng = RandomSource::new();
    let mut m = cluster(&mut rng);
    m.time = 200000;
    let (before, seed) = (m.clone(), rng.seed);
    assert!(m.can_update(&rng));
    assert_eq!(m, before);
    assert_eq!(rng.seed, seed);
    m.update(&mut rng);
    assert_ne!(m, before);
}

#[test]
fn scenario_needs_five_servers_and_a_term() {
    let mut m = start();
    assert!(m.scenario_fits());
    m.servers[0].term = u64::MAX;
    assert!(!m.scenario_fits());
    m.servers[0].term = u64::MAX - 1;
    assert!(m.scenario_fits());
    m.time = u64::MAX;
    assert!(!m.scenario_fits());
    m.time = 0;
    m.servers.pop();
    assert!(!m.scenario_fits());
}

#[test]
fn history_must_have_begun() {
    let mut s = State::new(start());
    let rng = RandomSource::new();
    assert!(!s.can_reach(0, &rng));
    s.init();
    assert!(s.can_reach(0, &rng));
    assert!(s.can_reach(5000, &rng));
    s.current.servers[0].state = ServerState::Candidate;
    s.current.servers[0].rpc_due.remove(&4);
    assert!(s.can_reach(0, &rng));
    assert!(!s.can_reach(5000, &rng));
}
