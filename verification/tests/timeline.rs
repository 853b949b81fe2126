use raftscope::actions::cluster;
use raftscope::raft::{Model, ServerState};
use raftscope::state::{Export, State};
use raftscope::util::RandomSource;

fn start() -> (State, RandomSource) {
    let mut rng = RandomSource::new();
    let mut m = cluster(&mut rng);
    m.time = 77;
    let mut s = State::new(m);
    s.init();
    (s, rng)
}

fn play(s: &mut State, rng: &mut RandomSource, until: u64) {
    while s.current.time < until {
        let t = s.current.time + 1000;
        s.seek(t, rng);
    }
}

#[test]
fn history_begins_at_time_zero() {
    let (s, _) = start();
    assert_eq!(s.current.time, 0);
    assert_eq!(s.get_max_time(), 0);
    assert_eq!(s.checkpoints.len(), 1);
    assert_eq!(s.base().time, 0);
}

#[test]
fn checkpoints_are_made_when_something_happens() {
    let (mut s, mut rng) = start();
    s.advance(1000, &mut rng);
    assert_eq!(s.checkpoints.len(), 1);
    assert_eq!(s.get_max_time(), 1000);
    // the first timer runs out at 117546
    s.advance(117546, &mut rng);
    assert_eq!(s.checkpoints.len(), 2);
    assert_eq!(s.checkpoints[1].time, 117546);
    assert_eq!(s.current, s.checkpoints[1]);
}

#[test]
fn latest_checkpoint_at_or_before() {
    let (mut s, mut rng) = start();
    play(&mut s, &mut rng, 400000);
    assert!(s.checkpoints.len() > 5);
    for t in [0, 999, 117999, 118000, 250000, 400000, 999999] {
        let i = s.prev(t);
        assert!(s.checkpoints[i].time <= t);
        assert!(i + 1 == s.checkpoints.len() || s.checkpoints[i + 1].time > t);
    }
}

#[test]
fn seek_and_rewind_round_trip() {
    let (mut s, mut rng) = start();
    play(&mut s, &mut rng, 400000);
    let there = s.current.clone();
    let n = s.checkpoints.len();
    s.rewind(130000);
    assert_eq!(s.current.time, 130000);
    assert!(s.current != there);
    s.seek(400000, &mut rng);
    assert_eq!(s.current, there);
    assert_eq!(s.checkpoints.len(), n);
    assert_eq!(s.get_max_time(), 400000);
}

#[test]
fn moving_on_keeps_the_past() {
    let (mut s, mut rng) = start();
    play(&mut s, &mut rng, 200000);
    s.rewind(150000);
    let then = s.current.clone();
    s.rewind(200000);
    play(&mut s, &mut rng, 600000);
    s.rewind(150000);
    assert_eq!(s.current, then);
}

#[test]
fn fork_discards_the_future() {
    let (mut s, mut rng) = start();
    play(&mut s, &mut rng, 400000);
    s.rewind(150000);
    let here = s.current.clone();
    s.fork();
    assert_eq!(s.current, here);
    assert_eq!(s.get_max_time(), 150000);
    assert!(s.checkpoints.last().unwrap().time <= 150000);
    let n = s.checkpoints.len();
    s.fork();
    assert_eq!(s.checkpoints.len(), n);
    // the past is still there
    s.rewind(0);
    assert_eq!(s.current, s.checkpoints[0]);
}

#[test]
fn edits_are_given_back() {
    let (mut s, mut rng) = start();
    play(&mut s, &mut rng, 300000);
    s.rewind(130000);
    s.fork();
    s.current.stop(2);
    s.save();
    let edited = s.current.clone();
    play(&mut s, &mut rng, 300000);
    s.rewind(130000);
    assert_eq!(s.current, edited);
    assert_eq!(s.current.servers[2].state, ServerState::Stopped);
}

#[test]
fn export_and_import_give_the_history_back() {
    let (mut s, mut rng) = start();
    play(&mut s, &mut rng, 300000);
    let (mut other, _) = start();
    other.import(s.export());
    assert_eq!(other.checkpoints, s.checkpoints);
    assert_eq!(other.get_max_time(), 300000);
    assert_eq!(Some(&other.current), s.checkpoints.last());
    assert!(other.current.time > 0);
    other.rewind(222000);
    s.rewind(222000);
    assert_eq!(other.current, s.current);
}

#[test]
fn import_of_nothing_leaves_nothing() {
    let (mut s, mut rng) = start();
    play(&mut s, &mut rng, 300000);
    s.import(Export { checkpoints: vec![], max_time: 9 });
    assert_eq!(s.current, Model::new());
    assert_eq!(s.checkpoints.len(), 0);
    assert_eq!(s.get_max_time(), 9);
}

#[test]
fn clear_starts_over() {
    let (mut s, mut rng) = start();
    let first = s.current.clone();
    play(&mut s, &mut rng, 300000);
    s.clear();
    assert_eq!(s.current, first);
    assert_eq!(s.checkpoints.len(), 0);
    assert_eq!(s.get_max_time(), 0);
}

#[test]
fn fork_before_the_first_checkpoint() {
    let mut rng = RandomSource::new();
    let mut s = State::new(cluster(&mut rng));
    s.current.time = 5;
    s.fork();
    assert_eq!(s.checkpoints.len(), 0);
    assert_eq!(s.get_max_time(), 5);
}
