use raftscope::actions::cluster;
use raftscope::raft::{Body, Message, Model, ServerState, MAX_RPC_LATENCY, MIN_RPC_LATENCY};
use raftscope::util::{RandomSource, INF};

fn run(m: &mut Model, rng: &mut RandomSource, ticks: usize, dt: u64) {
    for _ in 0..ticks {
        m.time += dt;
        m.update(rng);
    }
}

fn message(to: u32, recv_time: u64) -> Message {
    Message {
        from: 1,
        to,
        term: 1,
        send_time: 0,
        recv_time,
        body: Body::RequestVoteRep { granted: false },
    }
}

#[test]
fn tick_delivers_what_has_arrived_and_forgets_what_never_will() {
    let mut rng = RandomSource::new();
    let mut m = cluster(&mut rng);
    m.time = 100;
    m.messages.push(message(2, 100));
    m.messages.push(message(2, 101));
    m.messages.push(message(2, INF));
    m.messages.push(message(99, 50));
    m.update(&mut rng);
    assert_eq!(m.messages, vec![message(2, 101)]);
}

#[test]
fn index_of_finds_the_first() {
    let mut rng = RandomSource::new();
    let mut m = cluster(&mut rng);
    assert_eq!(m.index_of(4), Some(3));
    assert_eq!(m.index_of(9), None);
    m.servers[1].id = 4;
    assert_eq!(m.index_of(4), Some(1));
}

#[test]
fn first_to_time_out_asks_everybody() {
    let mut rng = RandomSource::new();
    let mut m = cluster(&mut rng);
    m.time = 117546;
    m.update(&mut rng);
    assert_eq!(m.servers[4].state, ServerState::Candidate);
    assert_eq!(m.servers[4].term, 2);
    let to: Vec<u32> = m.messages.iter().map(|m| m.to).collect();
    assert_eq!(to, vec![1, 2, 3, 4]);
    for msg in &m.messages {
        assert_eq!(msg.send_time, 117546);
        assert!(msg.recv_time >= 117546 + MIN_RPC_LATENCY);
        assert!(msg.recv_time < 117546 + MAX_RPC_LATENCY);
    }
}

#[test]
fn no_message_stays_overdue() {
    let mut rng = RandomSource::new();
    let mut m = cluster(&mut rng);
    for _ in 0..3000 {
        m.time += 1000;
        m.update(&mut rng);
        for msg in &m.messages {
            assert!(msg.recv_time > m.time);
        }
    }
}

#[test]
fn at_most_one_leader_per_term() {
    let mut rng = RandomSource::new();
    let mut m = cluster(&mut rng);
    for round in 0..6000 {
        m.time += 1000;
        m.update(&mut rng);
        if round % 700 == 0 {
            m.restart(round % 5, &mut rng);
        }
        if round % 450 == 0 {
            m.align_timers();
        }
        for a in 0..5 {
            for b in 0..a {
                assert!(
                    m.servers[a].state != ServerState::Leader
                        || m.servers[b].state != ServerState::Leader
                        || m.servers[a].term != m.servers[b].term
                );
            }
        }
    }
}

#[test]
fn terms_and_commits_never_go_back() {
    let mut rng = RandomSource::new();
    let mut m = cluster(&mut rng);
    for round in 0..4000 {
        let before = m.clone();
        m.time += 1000;
        m.update(&mut rng);
        for i in 0..5 {
            let (s, t) = (&before.servers[i], &m.servers[i]);
            assert!(t.term >= s.term);
            assert!(t.commit_index >= s.commit_index);
            if t.term == s.term && s.voted_for.is_some() {
                assert_eq!(t.voted_for, s.voted_for);
            }
            let leads = s.state == ServerState::Leader && t.state == ServerState::Leader;
            if t.term == s.term && leads {
                assert_eq!(t.log, s.log);
            }
        }
        if round % 50 == 0 {
            if let Some(li) = m.leader_index() {
                m.client_request(li);
            }
        }
    }
}

#[test]
fn stopped_servers_stay_as_they_are() {
    let mut rng = RandomSource::new();
    let mut m = cluster(&mut rng);
    run(&mut m, &mut rng, 300, 1000);
    m.stop(1);
    let stopped = m.servers[1].clone();
    run(&mut m, &mut rng, 1000, 1000);
    assert_eq!(m.servers[1], stopped);
}

#[test]
fn healthy_cluster_is_always_ready() {
    let mut rng = RandomSource::new();
    let mut m = cluster(&mut rng);
    for _ in 0..2000 {
        m.time += 1000;
        assert!(m.can_update(&rng));
        m.update(&mut rng);
    }
}

#[test]
fn followers_need_no_records_of_their_peers() {
    let mut rng = RandomSource::new();
    let mut m = cluster(&mut rng);
    m.servers[0].next_index.clear();
    m.servers[0].rpc_due.clear();
    m.servers[0].heartbeat_due.clear();
    m.servers[0].vote_granted.clear();
    // an answer from a stranger to a follower is of no consequence
    m.messages.push(Message {
        from: 99,
        to: 1,
        term: 1,
        send_time: 0,
        recv_time: 50,
        body: Body::AppendEntriesRep { success: true, match_index: 4 },
    });
    m.time = 100;
    assert!(m.can_update(&rng));
    let servers = m.servers.clone();
    m.update(&mut rng);
    assert_eq!(m.servers, servers);
    assert_eq!(m.messages.len(), 0);
}

#[test]
fn stopped_servers_send_nothing() {
    let mut rng = RandomSource::new();
    let mut m = cluster(&mut rng);
    run(&mut m, &mut rng, 300, 1000);
    let li = m.leader_index().unwrap();
    m.stop(li);
    let id = m.servers[li].id;
    let mut seen = 0;
    for _ in 0..1000 {
        let before = m.messages.clone();
        m.time += 1000;
        m.update(&mut rng);
        assert!(m.messages.iter().all(|n| n.from != id || before.contains(n)));
        seen += m.messages.iter().filter(|n| n.to == id).count();
    }
    assert!(seen > 0);
}

#[test]
fn messages_on_their_way_stay_in_front() {
    let mut rng = RandomSource::new();
    let mut m = cluster(&mut rng);
    let (mut stayed, mut came) = (0, 0);
    for _ in 0..1000 {
        m.time += 1000;
        let mut kept = m.messages.clone();
        kept.retain(|n| n.recv_time > m.time);
        m.update(&mut rng);
        assert_eq!(m.messages[..kept.len()], kept[..]);
        for n in &m.messages[kept.len()..] {
            assert_eq!(n.send_time, m.time);
            assert!(m.time < n.recv_time && n.recv_time < INF);
        }
        stayed += kept.len();
        came += m.messages.len() - kept.len();
    }
    assert!(stayed > 0 && came > 0);
}

#[test]
fn lost_messages_leave_the_network() {
    let mut rng = RandomSource::new();
    let mut m = cluster(&mut rng);
    m.messages.push(Message {
        from: 2,
        to: 1,
        term: 1,
        send_time: 0,
        recv_time: INF,
        body: Body::RequestVoteRep { granted: true },
    });
    m.update(&mut rng);
    assert_eq!(m.messages.len(), 0);
}
