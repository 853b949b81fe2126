use raftscope::raft::{server, Model, NUM_SERVERS};
use raftscope::util::RandomSource;

fn cluster(rng: &mut RandomSource) -> Model {
    let mut m = Model::new();
    for i in 1..=NUM_SERVERS {
        let peers: Vec<u32> = (1..=NUM_SERVERS).filter(|&j| j != i).collect();
        m.servers.push(server(i, peers, rng));
    }
    m
}

fn run(m: &mut Model, rng: &mut RandomSource, ticks: usize, dt: u64) {
    for _ in 0..ticks {
        m.time += dt;
        m.update(rng);
    }
}

#[test]
fn elects_a_leader() {
    let mut rng = RandomSource::new();
    let mut m = cluster(&mut rng);
    run(&mut m, &mut rng, 5000, 1000);
    assert!(m.leader_index().is_some(), "no leader emerged from a cold start");
}

#[test]
fn log_replication_scenario_replicates_to_majority() {
    let mut rng = RandomSource::new();
    let mut m = cluster(&mut rng);
    m.setup_log_replication_scenario(&mut rng);
    let li = m.leader_index().expect("scenario should produce a leader");
    assert_eq!(m.servers[li].log.len(), 3, "leader should hold 3 client entries");

    m.resume_all(&mut rng);
    run(&mut m, &mut rng, 40000, 1000);

    // The 3 entries are from a prior term, so they may stay uncommitted
    // (Raft only commits current-term entries) — but they must replicate.
    let replicated = m.servers.iter().filter(|s| s.log.len() == 3).count();
    assert!(
        replicated >= 3,
        "log not replicated to a majority (only {})",
        replicated
    );
}

#[test]
fn leader_commits_current_term_entries() {
    let mut rng = RandomSource::new();
    let mut m = cluster(&mut rng);
    run(&mut m, &mut rng, 5000, 1000);
    // Feed the current leader repeatedly so that whoever holds power appends
    // an entry in its own term and can advance the commit index.
    for _ in 0..10 {
        if let Some(li) = m.leader_index() {
            m.client_request(li);
        }
        run(&mut m, &mut rng, 2000, 1000);
    }
    let li = m.leader_index().expect("a leader should exist");
    assert!(
        m.servers[li].commit_index >= 1,
        "leader committed nothing (commit_index = {})",
        m.servers[li].commit_index
    );
}
