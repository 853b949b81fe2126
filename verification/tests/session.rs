use raftscope::raft::ServerState;
use raftscope::session::{command, server_actions, Command, Effect, SAction, Session};
use raftscope::util::RandomSource;

fn start() -> (Session, RandomSource) {
    let mut rng = RandomSource::new();
    let mut s = Session::new(&mut rng);
    s.state.init();
    (s, rng)
}

fn press(s: &mut Session, rng: &mut RandomSource, key: &str) -> Vec<Effect> {
    let mut effects = vec![];
    s.dispatch_key(key, rng, &mut effects);
    effects
}

fn play(s: &mut Session, rng: &mut RandomSource, until: u64) {
    while s.state.current.time < until {
        let t = s.state.current.time + 1000;
        s.state.seek(t, rng);
    }
}

fn drawn(servers_same: bool, messages_same: bool) -> Effect {
    Effect::Render { servers_same, messages_same, move_clock: true }
}

#[test]
fn keys_and_what_they_ask_for() {
    let all = [
        (" ", Command::TogglePause),
        (".", Command::TogglePause),
        ("c", Command::Request),
        ("r", Command::Restart),
        ("t", Command::Spread),
        ("a", Command::Align),
        ("l", Command::Scenario),
        ("b", Command::ResumeAll),
        ("f", Command::Fork),
        ("?", Command::Help),
        ("x", Command::Nothing),
        ("", Command::Nothing),
        ("shift", Command::Nothing),
        ("cc", Command::Nothing),
    ];
    for (key, c) in all {
        assert_eq!(command(key), c);
    }
}

#[test]
fn actions_and_their_labels() {
    let labels: Vec<&str> = server_actions().iter().map(|a| a.label()).collect();
    assert_eq!(labels, vec!["stop", "resume", "restart", "time out", "request"]);
}

#[test]
fn pause_and_resume() {
    let (mut s, mut rng) = start();
    assert_eq!(
        press(&mut s, &mut rng, " "),
        vec![Effect::HideModals, Effect::ShowPaused, drawn(false, false)]
    );
    assert!(s.paused);
    assert_eq!(
        press(&mut s, &mut rng, "."),
        vec![Effect::HideModals, Effect::ShowRunning, drawn(true, true)]
    );
    assert!(!s.paused);
    let mut effects = vec![];
    s.resume(&mut effects);
    assert_eq!(effects, vec![]);
}

#[test]
fn keys_for_the_leader_do_nothing_without_one() {
    let (mut s, mut rng) = start();
    assert_eq!(press(&mut s, &mut rng, "c"), vec![]);
    assert_eq!(press(&mut s, &mut rng, "r"), vec![]);
    assert_eq!(press(&mut s, &mut rng, "x"), vec![]);
    assert_eq!(s.state.checkpoints.len(), 1);
}

#[test]
fn request_goes_to_the_leader() {
    let (mut s, mut rng) = start();
    press(&mut s, &mut rng, "l");
    assert_eq!(s.state.current.servers[0].log.len(), 3);
    assert_eq!(
        press(&mut s, &mut rng, "c"),
        vec![drawn(false, true), Effect::HideModals]
    );
    assert_eq!(s.state.current.servers[0].log.len(), 4);
    press(&mut s, &mut rng, "r");
    assert_eq!(s.state.current.servers[0].state, ServerState::Follower);
}

#[test]
fn scenario_pauses() {
    let (mut s, mut rng) = start();
    assert_eq!(
        press(&mut s, &mut rng, "l"),
        vec![
            Effect::ShowPaused,
            drawn(false, false),
            drawn(false, true),
            Effect::HideModals
        ]
    );
    assert!(s.paused);
    assert_eq!(s.state.current.leader_index(), Some(0));
    press(&mut s, &mut rng, "b");
    assert!(s.state.current.servers.iter().all(|v| v.state == ServerState::Follower));
}

#[test]
fn help_pauses() {
    let (mut s, mut rng) = start();
    assert_eq!(
        press(&mut s, &mut rng, "?"),
        vec![Effect::ShowPaused, drawn(false, false), Effect::ShowHelp]
    );
    assert!(s.paused);
}

#[test]
fn timers_are_spread_and_aligned() {
    let (mut s, mut rng) = start();
    press(&mut s, &mut rng, "t");
    // 117546 and 118894 were too close
    assert_eq!(s.state.current.servers[4].election_alarm, 102546);
    press(&mut s, &mut rng, "a");
    assert_eq!(s.state.current.servers[3].election_alarm, 102546);
    assert_eq!(s.state.current.servers[4].election_alarm, 102546);
    assert_eq!(s.state.checkpoints.len(), 3);
}

#[test]
fn fork_key_discards_the_future() {
    let (mut s, mut rng) = start();
    play(&mut s, &mut rng, 300000);
    s.state.rewind(120000);
    let effects = press(&mut s, &mut rng, "f");
    assert_eq!(effects[1], Effect::HideModals);
    assert_eq!(effects.len(), 2);
    assert_eq!(s.state.get_max_time(), 120000);
}

#[test]
fn server_actions_fork_and_save() {
    let (mut s, mut rng) = start();
    play(&mut s, &mut rng, 300000);
    s.state.rewind(120000);
    let mut effects = vec![];
    s.do_server_action(SAction::Stop, 1, &mut rng, &mut effects);
    assert_eq!(effects.last(), Some(&Effect::HideOverlays));
    assert_eq!(s.state.get_max_time(), 120000);
    assert_eq!(s.state.current.servers[1].state, ServerState::Stopped);
    assert_eq!(s.state.checkpoints.last(), Some(&s.state.current));
    s.do_server_action(SAction::Resume, 1, &mut rng, &mut effects);
    assert_eq!(s.state.current.servers[1].state, ServerState::Follower);
    s.do_server_action(SAction::Timeout, 1, &mut rng, &mut effects);
    assert_eq!(s.state.current.servers[1].state, ServerState::Candidate);
    s.do_server_action(SAction::Restart, 1, &mut rng, &mut effects);
    assert_eq!(s.state.current.servers[1].state, ServerState::Follower);
    s.do_server_action(SAction::Request, 1, &mut rng, &mut effects);
    assert_eq!(s.state.current.servers[1].log.len(), 0);
}

#[test]
fn messages_can_be_dropped() {
    let (mut s, mut rng) = start();
    play(&mut s, &mut rng, 118000);
    assert_eq!(s.state.current.messages.len(), 4);
    let mut effects = vec![];
    s.do_drop(0, &mut effects);
    assert_eq!(s.state.current.messages.len(), 3);
    assert_eq!(effects.last(), Some(&Effect::HideOverlays));
}

#[test]
fn frames_play_on_slowed_down() {
    let (mut s, mut rng) = start();
    let mut effects = vec![];
    s.step(1000000, 100000, &mut rng, &mut effects);
    assert_eq!(effects, vec![]);
    assert_eq!(s.last_ts, Some(1000000));
    // 16.667 ms at a hundredth of the speed
    s.step(1016667, 100000, &mut rng, &mut effects);
    assert_eq!(s.state.current.time, 166);
    assert_eq!(s.carry, 670);
    assert_eq!(effects, vec![drawn(false, false)]);
    s.step(1033334, 100000, &mut rng, &mut effects);
    assert_eq!(s.state.current.time, 333);
    assert_eq!(s.carry, 340);
}

#[test]
fn long_gaps_are_not_played() {
    let (mut s, mut rng) = start();
    let mut effects = vec![];
    s.step(0, 1000, &mut rng, &mut effects);
    s.step(500000, 1000, &mut rng, &mut effects);
    assert_eq!(s.state.current.time, 0);
    assert_eq!(effects, vec![]);
    assert_eq!(s.last_ts, Some(500000));
    s.step(999999, 1000, &mut rng, &mut effects);
    assert_eq!(s.state.current.time, 499999);
}

#[test]
fn frames_that_come_early_go_back() {
    let (mut s, mut rng) = start();
    let mut effects = vec![];
    s.step(100000, 1000, &mut rng, &mut effects);
    s.step(200000, 1000, &mut rng, &mut effects);
    assert_eq!(s.state.current.time, 100000);
    s.step(170000, 1000, &mut rng, &mut effects);
    assert_eq!(s.state.current.time, 70000);
    assert_eq!(s.state.get_max_time(), 100000);
}

#[test]
fn paused_sessions_do_not_play() {
    let (mut s, mut rng) = start();
    let mut effects = vec![];
    s.step(0, 1000, &mut rng, &mut effects);
    s.pause(&mut effects);
    assert!(s.can_step(100000, 1000, &rng));
    s.step(100000, 1000, &mut rng, &mut effects);
    assert_eq!(s.state.current.time, 0);
    assert_eq!(s.last_ts, Some(100000));
}

#[test]
fn steps_that_cannot_be_taken_are_found() {
    let (mut s, mut rng) = start();
    let mut effects = vec![];
    s.step(0, 1000, &mut rng, &mut effects);
    assert!(s.can_step(100000, 1000, &rng));
    s.state.current.servers[0].state = ServerState::Candidate;
    s.state.current.servers[0].rpc_due.remove(&2);
    assert!(!s.can_step(100000, 1000, &rng));
    // a paused session does not play
    s.pause(&mut effects);
    assert!(s.can_step(100000, 1000, &rng));
}

#[test]
fn slider_scrubs() {
    let (mut s, mut rng) = start();
    play(&mut s, &mut rng, 300000);
    let mut effects = vec![];
    s.start_sliding(&mut effects);
    assert!(s.paused && s.sliding);
    assert_eq!(effects[0], Effect::ShowPaused);
    effects.clear();
    s.slide(125000, &mut rng, &mut effects);
    assert_eq!(s.state.current.time, 125000);
    assert!(matches!(effects[0], Effect::Render { move_clock: false, .. }));
    effects.clear();
    s.stop_sliding(130000, &mut rng, &mut effects);
    assert_eq!(s.state.current.time, 130000);
    assert!(!s.sliding && s.paused);
    assert!(matches!(effects[0], Effect::Render { move_clock: true, .. }));
    assert_eq!(s.state.get_max_time(), 300000);
}

#[test]
fn actions_can_begin_the_history() {
    let mut rng = RandomSource::new();
    let mut s = Session::new(&mut rng);
    assert_eq!(press(&mut s, &mut rng, "x"), vec![]);
    assert_eq!(press(&mut s, &mut rng, "c"), vec![]);
    assert_eq!(s.state.checkpoints.len(), 0);
    assert_eq!(press(&mut s, &mut rng, "t"), vec![drawn(false, false), Effect::HideModals]);
    assert_eq!(s.state.checkpoints.len(), 1);

    let mut s = Session::new(&mut rng);
    let mut effects = vec![];
    s.do_server_action(SAction::Stop, 0, &mut rng, &mut effects);
    assert_eq!(s.state.checkpoints.len(), 1);
    assert_eq!(s.state.checkpoints[0].servers[0].state, ServerState::Stopped);
}
