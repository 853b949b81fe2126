//! Laws of a sitting: whatever the user does, the simulation can go on.

use crate::cluster_laws::{law_ready_can_update, law_tick_keeps_the_clock};
use crate::consensus_laws::{
    law_consistent_is_lawful, law_drop_keeps_consistent, law_new_cluster_is_consistent,
    law_request_keeps_consistent, law_restart_keeps_consistent, law_resume_all_keeps_consistent,
    law_resume_keeps_consistent, law_setting_the_clock_keeps_consistent,
    law_stop_keeps_consistent, law_timeout_keeps_consistent, law_timers_keep_consistent,
    law_update_keeps_consistent,
};
use crate::laws::{law_lawful_is_in_order, law_new_cluster_is_lawful};
use crate::protocol::{ModelView, Sim};
use crate::raft::NUM_SERVERS;
use crate::scenario_laws::{law_scenario_keeps_consistent, law_scenario_sets_the_stage};
use crate::session::{Command, SAction, Turn};
use crate::timeline::{checkpoint_at, StateView};
use crate::timeline_laws::{
    law_edit_round_trip, law_fork_discards_only_the_future, law_history_begins_in_order,
    law_seeking_settles,
};
use crate::util::{lemma_bisect, RandomView};
use vstd::prelude::*;

verus! {

impl ModelView {
    /// A consistent cluster of the usual size.
    pub open spec fn healthy(self) -> bool {
        self.consistent() && self.servers.len() == NUM_SERVERS
    }

    /// There is a term left for every server and room in every log.
    pub open spec fn has_room(self) -> bool {
        forall|i: int|
            0 <= i < self.servers.len() ==> (#[trigger] self.servers[i]).term < u64::MAX
                && self.servers[i].log.len() + 3 < usize::MAX
    }
}

impl StateView {
    /// The history is in order, begins with the beginning of time, and says
    /// what the present is; the present is healthy, and so is everything that
    /// can be gone back to.
    pub open spec fn healthy(self) -> bool {
        &&& self.settled()
        &&& self.checkpoints[0].time == 0
        &&& self.current.healthy()
        &&& forall|i: int|
            0 <= i < self.checkpoints.len() ==> (#[trigger] self.checkpoints[i]).healthy()
    }
}

/// What is found for a time is a checkpoint.
proof fn lemma_checkpoint_at(checkpoints: Seq<ModelView>, time: u64)
    requires
        checkpoints.len() > 0,
    ensures
        0 <= checkpoint_at(checkpoints, time) < checkpoints.len(),
{
    lemma_bisect(|i: int| checkpoints[i].time > time, 0, checkpoints.len() - 1);
}

/// A sitting begins healthy.
pub proof fn law_sitting_begins_healthy(rng: RandomView)
    ensures
        StateView::fresh(Sim::founded(rng, NUM_SERVERS as nat).model).saved().healthy(),
{
    let m = Sim::founded(rng, NUM_SERVERS as nat).model;
    law_new_cluster_is_consistent(rng);
    law_new_cluster_is_lawful(rng);
    law_setting_the_clock_keeps_consistent(m, 0);
    let s = StateView::fresh(m).saved();
    assert(s.checkpoints[0] == m.at_time(0));
    law_history_begins_in_order(m);
}

/// While the present is healthy and there are terms left, every time can be
/// reached.
pub proof fn law_healthy_reaches_every_time(s: StateView, time: u64, rng: RandomView)
    requires
        s.healthy(),
        s.current.has_room(),
    ensures
        s.reaches(time, rng),
{
    law_setting_the_clock_keeps_consistent(s.current, time);
    law_consistent_is_lawful(s.current.at_time(time));
    law_lawful_is_in_order(s.current.at_time(time));
    assert(s.current.at_time(time).servers == s.current.servers);
    law_ready_can_update(Sim { model: s.current.at_time(time), rng });
}

/// A fork keeps a history healthy.
pub proof fn law_fork_keeps_healthy(s: StateView)
    requires
        s.healthy(),
    ensures
        s.forked().healthy(),
{
    lemma_checkpoint_at(s.checkpoints, s.current.time);
    law_fork_discards_only_the_future(s, s.current.time);
    assert(s.forked().rewound(s.current.time).current == s.current);
}

/// An edit, made in a new future and saved, keeps a history healthy.
pub proof fn law_edit_keeps_healthy(s: StateView, m: ModelView)
    requires
        s.healthy(),
        m.healthy(),
        m.time == s.current.time,
    ensures
        (StateView { current: m, ..s.forked() }).saved().healthy(),
{
    law_fork_keeps_healthy(s);
    law_edit_round_trip(s, m, m.time);
}

/// Seeking, back or on, keeps a history healthy.
pub proof fn law_seek_keeps_healthy(s: StateView, time: u64, rng: RandomView)
    requires
        s.healthy(),
        s.reaches(time, rng),
    ensures
        s.sought(time, rng).healthy(),
{
    law_seeking_settles(s, time, rng);
    if time <= s.max_time {
        lemma_checkpoint_at(s.checkpoints, time);
        law_setting_the_clock_keeps_consistent(s.checkpoints[s.prev(time)], time);
    } else {
        let w = Sim { model: s.current.at_time(time), rng };
        law_setting_the_clock_keeps_consistent(s.current, time);
        law_consistent_is_lawful(w.model);
        law_lawful_is_in_order(w.model);
        law_update_keeps_consistent(w);
        law_tick_keeps_the_clock(w);
    }
}

/// Replacing the present by a healthy one keeps a history healthy.
proof fn lemma_rewritten(t: Turn, w: Sim)
    requires
        t.session.state.healthy(),
        w.model.healthy(),
        w.model.time == t.session.state.current.time,
    ensures
        t.rewritten(w).session.state.healthy(),
        t.forked().with_sim(w).saved().rendered().session.state.healthy(),
{
    law_edit_keeps_healthy(t.session.state, w.model);
}

/// Resuming does not move the clock.
proof fn lemma_all_resumed_time(w: Sim, n: nat)
    ensures
        w.all_resumed(n).model.time == w.model.time,
    decreases n,
{
    if n > 0 {
        lemma_all_resumed_time(w, (n - 1) as nat);
    }
}

/// Acting upon a server keeps the sitting healthy.
pub proof fn law_server_action_keeps_healthy(t: Turn, a: SAction, si: int)
    requires
        t.session.state.healthy(),
        t.session.state.current.has_room(),
        0 <= si < NUM_SERVERS,
    ensures
        t.server_action(a, si).session.state.healthy(),
{
    let w = t.sim();
    assert(w.model.servers[si].term < u64::MAX);
    match a {
        SAction::Stop => law_stop_keeps_consistent(w.model, si),
        SAction::Resume => law_resume_keeps_consistent(w, si),
        SAction::Restart => law_restart_keeps_consistent(w, si),
        SAction::Timeout => law_timeout_keeps_consistent(w, si),
        SAction::Request => law_request_keeps_consistent(w.model, si),
    }
    let v = t.forked().applied(a, si).sim();
    assert(v.model.healthy());
    lemma_rewritten(t, v);
    assert(t.forked().applied(a, si).session.state == t.forked().with_sim(v).session.state);
}

/// Losing a message keeps the sitting healthy.
pub proof fn law_message_drop_keeps_healthy(t: Turn, mi: int)
    requires
        t.session.state.healthy(),
    ensures
        t.message_drop(mi).session.state.healthy(),
{
    let w = t.sim();
    law_drop_keeps_consistent(w.model, mi);
    lemma_rewritten(t, Sim { model: w.model.message_dropped(mi), ..w });
}

/// A key keeps the sitting healthy, if the scenario is only asked for before
/// the first election.
pub proof fn law_key_keeps_healthy(t: Turn, c: Command)
    requires
        t.session.state.healthy(),
        t.session.state.current.has_room(),
        c == Command::Scenario ==> t.session.state.current.is_unled(),
    ensures
        t.commanded(c).session.state.healthy(),
{
    let w = t.sim();
    law_fork_keeps_healthy(t.session.state);
    match c {
        Command::Request => {
            if let Some(l) = w.model.leader() {
                assert(w.model.is_top_leader(l));
                law_request_keeps_consistent(w.model, l);
                lemma_rewritten(t, w.requested(l));
            }
        },
        Command::Restart => {
            if let Some(l) = w.model.leader() {
                assert(w.model.is_top_leader(l));
                law_restart_keeps_consistent(w, l);
                lemma_rewritten(t, w.restarted(l));
            }
        },
        Command::Spread => {
            law_timers_keep_consistent(w.model);
            lemma_rewritten(t, Sim { model: w.model.timers_spread(), ..w });
        },
        Command::Align => {
            law_timers_keep_consistent(w.model);
            lemma_rewritten(t, Sim { model: w.model.timers_aligned(), ..w });
        },
        Command::Scenario => {
            let v = w.log_replication_scenario();
            law_consistent_is_lawful(w.model);
            law_lawful_is_in_order(w.model);
            assert(w.model.servers[0].wf());
            assert(w.model.servers[0].log.len() + 3 < usize::MAX);
            law_scenario_sets_the_stage(w);
            law_scenario_keeps_consistent(w);
            lemma_rewritten(t, v);
            assert(t.commanded(c).session.state == t.forked().with_sim(v).saved().session.state);
        },
        Command::ResumeAll => {
            law_resume_all_keeps_consistent(w, w.model.servers.len());
            lemma_all_resumed_time(w, w.model.servers.len());
            lemma_rewritten(t, w.all_resumed(w.model.servers.len()));
        },
        _ => {},
    }
}

/// Playing on keeps the sitting healthy.
pub proof fn law_step_keeps_healthy(t: Turn, ts: u64, slowness: u64)
    requires
        t.session.state.healthy(),
        t.session.plays(ts) ==> t.session.state.reaches(
            t.session.frame_time(ts, slowness) as u64,
            t.rng,
        ),
    ensures
        t.stepped(ts, slowness).session.state.healthy(),
{
    let s = t.session;
    if s.plays(ts) {
        let time = s.frame_time(ts, slowness) as u64;
        law_seek_keeps_healthy(s.state, time, t.rng);
    }
}

/// Moving the time slider keeps the sitting healthy.
pub proof fn law_slide_keeps_healthy(t: Turn, time: u64)
    requires
        t.session.state.healthy(),
        t.session.state.reaches(time, t.rng),
    ensures
        t.slide_started().session.state.healthy(),
        t.slid(time).session.state.healthy(),
        t.slide_ended(time).session.state.healthy(),
{
    law_seek_keeps_healthy(t.session.state, time, t.rng);
}

/// Pausing shows the same present: it changes neither the history nor the
/// cluster, and resuming undoes it.
pub proof fn law_pausing_stops_only_the_clock(t: Turn, ts: u64, slowness: u64)
    ensures
        t.paused().session.state == t.session.state,
        t.paused().resumed().session.state == t.session.state,
        !t.paused().resumed().session.paused,
        t.paused().stepped(ts, slowness).session.state == t.session.state,
        t.toggled().session.paused == !t.session.paused,
{
}

} // verus!
