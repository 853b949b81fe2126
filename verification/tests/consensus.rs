use raftscope::actions::cluster;
use raftscope::raft::{Model, ServerState};
use raftscope::util::RandomSource;

/// Ticks with requests, restarts, lost messages and stopped servers.
fn stir(m: &mut Model, rng: &mut RandomSource, round: usize) {
    m.time += 1000;
    m.update(rng);
    if round % 40 == 0 {
        if let Some(li) = m.leader_index() {
            m.client_request(li);
        }
    }
    if round % 430 == 0 {
        m.restart(round / 430 % 5, rng);
    }
    if round % 610 == 0 {
        m.stop(round / 610 % 5);
    }
    if round % 970 == 0 {
        m.resume_all(rng);
    }
    if round % 53 == 0 {
        m.drop(0);
    }
}

#[test]
fn logs_match_and_committed_logs_never_differ() {
    let mut rng = RandomSource::new();
    let mut m = cluster(&mut rng);
    let mut committed = 0;
    for round in 1..5000 {
        stir(&mut m, &mut rng, round);
        for a in 0..5 {
            let s = &m.servers[a];
            committed = committed.max(s.commit_index);
            assert!(s.commit_index <= s.log.len());
            for b in 0..a {
                let t = &m.servers[b];
                let c = s.commit_index.min(t.commit_index);
                assert_eq!(s.log[..c], t.log[..c]);
                for k in 0..s.log.len().min(t.log.len()) {
                    if s.log[k].term == t.log[k].term {
                        assert_eq!(s.log[..=k], t.log[..=k]);
                    }
                }
            }
        }
    }
    assert!(committed > 5);
}

#[test]
fn leaders_have_what_is_committed() {
    let mut rng = RandomSource::new();
    let mut m = cluster(&mut rng);
    for round in 1..5000 {
        stir(&mut m, &mut rng, round);
        for l in m.servers.iter().filter(|s| s.state == ServerState::Leader) {
            for s in m.servers.iter().filter(|s| s.term <= l.term) {
                assert!(s.commit_index <= l.log.len());
                assert_eq!(s.log[..s.commit_index], l.log[..s.commit_index]);
            }
        }
    }
}

#[test]
fn committed_entries_are_never_lost() {
    let mut rng = RandomSource::new();
    let mut m = cluster(&mut rng);
    for round in 1..5000 {
        let before = m.clone();
        stir(&mut m, &mut rng, round);
        for i in 0..5 {
            let (s, t) = (&before.servers[i], &m.servers[i]);
            assert!(t.commit_index >= s.commit_index);
            assert_eq!(s.log[..s.commit_index], t.log[..s.commit_index]);
        }
    }
}

#[test]
fn terms_in_logs_never_go_back() {
    let mut rng = RandomSource::new();
    let mut m = cluster(&mut rng);
    for round in 1..3000 {
        stir(&mut m, &mut rng, round);
        for s in &m.servers {
            let mut last = 1;
            for e in &s.log {
                assert!(last <= e.term && e.term <= s.term);
                last = e.term;
            }
        }
    }
}

#[test]
fn scenario_on_a_new_cluster_keeps_the_laws() {
    let mut rng = RandomSource::new();
    let mut m = cluster(&mut rng);
    m.setup_log_replication_scenario(&mut rng);
    m.resume(2, &mut rng);
    let mut committed = 0;
    for round in 1..3000 {
        stir(&mut m, &mut rng, round);
        assert!(m.can_update(&rng));
        for a in 0..5 {
            for b in 0..a {
                let (s, t) = (&m.servers[a], &m.servers[b]);
                let c = s.commit_index.min(t.commit_index);
                committed = committed.max(c);
                assert_eq!(s.log[..c], t.log[..c]);
            }
        }
    }
    assert!(committed >= 3);
}

#[test]
fn scenario_after_an_election_may_turn_terms_back() {
    let mut rng = RandomSource::new();
    let mut m = cluster(&mut rng);
    for i in 0..5 {
        m.servers[i].term = 7;
    }
    m.setup_log_replication_scenario(&mut rng);
    assert_eq!(m.servers[0].term, 8);
    assert_eq!(m.servers[1].term, 2);
}

#[test]
fn terms_votes_and_leaders_stand_over_a_run() {
    let mut rng = RandomSource::new();
    let mut m = cluster(&mut rng);
    let mut votes: Vec<(usize, u64, u32)> = vec![];
    let mut leaders: Vec<(u64, usize)> = vec![];
    let mut terms = [0; 5];
    for round in 1..6000 {
        stir(&mut m, &mut rng, round);
        if round % 310 == 0 {
            m.timeout(round / 310 % 5, &mut rng);
        }
        for (i, s) in m.servers.iter().enumerate() {
            assert!(terms[i] <= s.term);
            terms[i] = s.term;
            if let Some(to) = s.voted_for {
                if let Some(v) = votes.iter().find(|v| v.0 == i && v.1 == s.term) {
                    assert_eq!(v.2, to);
                } else {
                    votes.push((i, s.term, to));
                }
            }
            if s.state == ServerState::Leader {
                if let Some(l) = leaders.iter().find(|l| l.0 == s.term) {
                    assert_eq!(l.1, i);
                } else {
                    leaders.push((s.term, i));
                }
            }
        }
    }
    assert!(leaders.len() >= 3);
    assert!(votes.len() >= 9);
}

#[test]
fn what_is_committed_is_committed_for_good() {
    let mut rng = RandomSource::new();
    let mut m = cluster(&mut rng);
    let mut committed = vec![];
    for round in 1..6000 {
        stir(&mut m, &mut rng, round);
        for s in &m.servers {
            let c = s.commit_index.min(committed.len());
            assert_eq!(s.log[..c], committed[..c]);
            if s.commit_index > committed.len() {
                committed = s.log[..s.commit_index].to_vec();
            }
        }
    }
    assert!(committed.len() >= 10);
}
