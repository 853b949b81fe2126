//! A sitting at the visualization: playback, keys, buttons and sliders.
//!
//! What the user does changes the [`Session`]; what is to be done to the page
//! comes back as a list of [`Effect`]s, in the order in which to do it.

use crate::actions::cluster;
use crate::protocol::{ModelView, Sim};
use crate::raft::{same_messages, same_servers, Model, NUM_SERVERS};
use crate::state::State;
use crate::timeline::StateView;
use crate::util::{RandomSource, RandomView};
use vstd::prelude::*;
use vstd::string::*;

verus! {

/// Something to be done to the page.
#[derive(Clone, Copy, PartialEq, Eq, Debug, Structural)]
pub enum Effect {
    /// Close the dialogs.
    HideModals,
    /// Close the dialogs and the context menu.
    HideOverlays,
    /// Show that playback is paused.
    ShowPaused,
    /// Show that playback runs.
    ShowRunning,
    /// Draw the cluster. Servers and messages that are the same as when they
    /// were last drawn need not be built anew; the clock stays where it is
    /// while the user moves it.
    Render { servers_same: bool, messages_same: bool, move_clock: bool },
    /// Open the help dialog.
    ShowHelp,
}

/// What can be done to a server.
#[derive(Clone, Copy, PartialEq, Eq, Debug, Structural)]
pub enum SAction {
    Stop,
    Resume,
    Restart,
    Timeout,
    Request,
}

impl SAction {
    /// What the action is called.
    pub open spec fn name(self) -> Seq<char> {
        match self {
            SAction::Stop => "stop"@,
            SAction::Resume => "resume"@,
            SAction::Restart => "restart"@,
            SAction::Timeout => "time out"@,
            SAction::Request => "request"@,
        }
    }

    /// What the action is called in menus.
    pub fn label(&self) -> (s: &'static str)
        ensures
            s@ == self.name(),
    {
        match self {
            SAction::Stop => "stop",
            SAction::Resume => "resume",
            SAction::Restart => "restart",
            SAction::Timeout => "time out",
            SAction::Request => "request",
        }
    }
}

/// The actions, in the order in which menus list them.
pub fn server_actions() -> (actions: Vec<SAction>)
    ensures
        actions@ == seq![
            SAction::Stop,
            SAction::Resume,
            SAction::Restart,
            SAction::Timeout,
            SAction::Request,
        ],
{
    let mut actions: Vec<SAction> = Vec::new();
    actions.push(SAction::Stop);
    actions.push(SAction::Resume);
    actions.push(SAction::Restart);
    actions.push(SAction::Timeout);
    actions.push(SAction::Request);
    actions
}

/// What a key asks for.
#[derive(Clone, Copy, PartialEq, Eq, Debug, Structural)]
pub enum Command {
    TogglePause,
    Request,
    Restart,
    Spread,
    Align,
    Scenario,
    ResumeAll,
    Fork,
    Help,
    Nothing,
}

impl Command {
    /// The command has something drawn before it adds to the history.
    pub open spec fn looks_back(self) -> bool {
        self == Command::TogglePause || self == Command::Scenario || self == Command::Fork || self
            == Command::Help
    }
}

/// What the key called `key` asks for.
pub open spec fn command_of(key: Seq<char>) -> Command {
    if key.len() != 1 {
        Command::Nothing
    } else if key[0] == ' ' || key[0] == '.' {
        Command::TogglePause
    } else if key[0] == 'c' {
        Command::Request
    } else if key[0] == 'r' {
        Command::Restart
    } else if key[0] == 't' {
        Command::Spread
    } else if key[0] == 'a' {
        Command::Align
    } else if key[0] == 'l' {
        Command::Scenario
    } else if key[0] == 'b' {
        Command::ResumeAll
    } else if key[0] == 'f' {
        Command::Fork
    } else if key[0] == '?' {
        Command::Help
    } else {
        Command::Nothing
    }
}

/// What the key called `key` asks for.
pub fn command(key: &str) -> (c: Command)
    ensures
        c == command_of(key@),
{
    if key.unicode_len() != 1 {
        return Command::Nothing;
    }
    let k: char = key.get_char(0);
    if k == ' ' || k == '.' {
        Command::TogglePause
    } else if k == 'c' {
        Command::Request
    } else if k == 'r' {
        Command::Restart
    } else if k == 't' {
        Command::Spread
    } else if k == 'a' {
        Command::Align
    } else if k == 'l' {
        Command::Scenario
    } else if k == 'b' {
        Command::ResumeAll
    } else if k == 'f' {
        Command::Fork
    } else if k == '?' {
        Command::Help
    } else {
        Command::Nothing
    }
}

// ----- the session as mathematics -----

/// A sitting: the simulation, how it is played, and what was last drawn.
#[verifier::ext_equal]
pub ghost struct SessionView {
    pub state: StateView,
    pub paused: bool,
    pub sliding: bool,
    pub last_base: Option<ModelView>,
    pub last_ts: Option<u64>,
    pub carry: u64,
}

/// A sitting in the course of something that the user did, with what is to be
/// done to the page on that account.
#[verifier::ext_equal]
pub ghost struct Turn {
    pub session: SessionView,
    pub rng: RandomView,
    pub effects: Seq<Effect>,
}

impl Turn {
    /// With one more thing to be done to the page.
    pub open spec fn effect(self, e: Effect) -> Turn {
        Turn { effects: self.effects.push(e), ..self }
    }

    /// With the simulation replaced.
    pub open spec fn with_state(self, state: StateView) -> Turn {
        Turn { session: SessionView { state, ..self.session }, ..self }
    }

    /// With the cluster of the present replaced.
    pub open spec fn with_current(self, current: ModelView) -> Turn {
        self.with_state(StateView { current, ..self.session.state })
    }

    /// The present with its source of chance.
    pub open spec fn sim(self) -> Sim {
        Sim { model: self.session.state.current, rng: self.rng }
    }

    /// With the present and its source of chance replaced.
    pub open spec fn with_sim(self, w: Sim) -> Turn {
        Turn { rng: w.rng, ..self.with_current(w.model) }
    }

    /// The future has been discarded.
    pub open spec fn forked(self) -> Turn {
        self.with_state(self.session.state.forked())
    }

    /// The present has been made a checkpoint.
    pub open spec fn saved(self) -> Turn {
        self.with_state(self.session.state.saved())
    }

    /// The cluster is drawn; what changed is judged by the checkpoint that the
    /// last drawing belonged to.
    pub open spec fn rendered(self) -> Turn {
        let s = self.session;
        let e = Effect::Render {
            servers_same: s.last_base is Some && s.last_base->0.servers == s.state.current.servers,
            messages_same: s.last_base is Some && s.last_base->0.messages
                == s.state.current.messages,
            move_clock: !s.sliding,
        };
        Turn { session: SessionView { last_base: Some(s.state.base()), ..s }, ..self }.effect(e)
    }

    /// The clock has been stopped.
    pub open spec fn paused(self) -> Turn {
        Turn { session: SessionView { paused: true, ..self.session }, ..self }.effect(
            Effect::ShowPaused,
        ).rendered()
    }

    /// The clock goes on, if it had been stopped.
    pub open spec fn resumed(self) -> Turn {
        if self.session.paused {
            Turn { session: SessionView { paused: false, ..self.session }, ..self }.effect(
                Effect::ShowRunning,
            ).rendered()
        } else {
            self
        }
    }

    /// The clock has been stopped or goes on.
    pub open spec fn toggled(self) -> Turn {
        if self.session.paused {
            self.resumed()
        } else {
            self.paused()
        }
    }

    /// Server `si` has been acted upon.
    pub open spec fn applied(self, a: SAction, si: int) -> Turn {
        match a {
            SAction::Stop => self.with_sim(self.sim().stopped(si)),
            SAction::Resume => self.with_sim(self.sim().resumed(si)),
            SAction::Restart => self.with_sim(self.sim().restarted(si)),
            SAction::Timeout => self.with_sim(self.sim().timed_out(si)),
            SAction::Request => self.with_sim(self.sim().requested(si)),
        }
    }

    /// Server `si` has been acted upon in a new future.
    pub open spec fn server_action(self, a: SAction, si: int) -> Turn {
        self.forked().applied(a, si).saved().rendered().effect(Effect::HideOverlays)
    }

    /// Message `mi` has been lost in a new future.
    pub open spec fn message_drop(self, mi: int) -> Turn {
        let t = self.forked();
        t.with_current(t.session.state.current.message_dropped(mi)).saved().rendered().effect(
            Effect::HideOverlays,
        )
    }

    /// The present is at `time`.
    pub open spec fn sought(self, time: u64) -> Turn {
        Turn {
            rng: self.session.state.rng_after(time, self.rng),
            ..self.with_state(self.session.state.sought(time, self.rng))
        }
    }

    /// The present has been changed to `w`, in a new future.
    pub open spec fn rewritten(self, w: Sim) -> Turn {
        self.forked().with_sim(w).saved().rendered().effect(Effect::HideModals)
    }

    /// What the command asks for has been done.
    pub open spec fn commanded(self, c: Command) -> Turn {
        let w = self.sim();
        match c {
            Command::TogglePause => self.effect(Effect::HideModals).toggled(),
            Command::Request => match w.model.leader() {
                Some(l) => self.rewritten(w.requested(l)),
                None => self,
            },
            Command::Restart => match w.model.leader() {
                Some(l) => self.rewritten(w.restarted(l)),
                None => self,
            },
            Command::Spread => self.rewritten(Sim { model: w.model.timers_spread(), ..w }),
            Command::Align => self.rewritten(Sim { model: w.model.timers_aligned(), ..w }),
            Command::Scenario => self.forked().paused().with_sim(
                w.log_replication_scenario(),
            ).saved().rendered().effect(Effect::HideModals),
            Command::ResumeAll => self.rewritten(w.all_resumed(w.model.servers.len())),
            Command::Fork => self.forked().rendered().effect(Effect::HideModals),
            Command::Help => self.paused().effect(Effect::ShowHelp),
            Command::Nothing => self,
        }
    }
}

// ----- playback -----

/// Gaps between frames that are as long as this are not played.
pub const LONGEST_GAP: u64 = 500000;

impl SessionView {
    /// The gap before the frame at `ts` is one that is played.
    pub open spec fn plays(self, ts: u64) -> bool {
        !self.paused && self.last_ts is Some && ts - self.last_ts->0 < LONGEST_GAP
    }

    /// How much is played before the frame at `ts`, in thousandths of a
    /// microsecond: what has passed on the wall, slowed down, and what was
    /// left over before.
    pub open spec fn played(self, ts: u64, slowness: u64) -> int {
        (ts - self.last_ts->0) * 1000000 / (slowness as int) + self.carry
    }

    /// The time that the frame at `ts` shows. Where the frame comes before the
    /// last one, that is an earlier time.
    pub open spec fn frame_time(self, ts: u64, slowness: u64) -> int {
        let now = self.state.current.time;
        if ts >= self.last_ts->0 {
            if now + self.played(ts, slowness) / 1000 > u64::MAX {
                u64::MAX as int
            } else {
                now + self.played(ts, slowness) / 1000
            }
        } else {
            let back = (self.last_ts->0 - ts) * 1000 / (slowness as int);
            if back > now {
                0
            } else {
                now - back
            }
        }
    }

    /// What is left over after the frame at `ts`.
    pub open spec fn frame_carry(self, ts: u64, slowness: u64) -> int {
        if ts >= self.last_ts->0 {
            self.played(ts, slowness) % 1000
        } else {
            self.carry as int
        }
    }
}

impl Turn {
    /// The frame at `ts` has been counted.
    pub open spec fn stamped(self, ts: u64) -> Turn {
        Turn { session: SessionView { last_ts: Some(ts), ..self.session }, ..self }
    }

    /// A frame at `ts` has come, at a playback that is slowed down by
    /// `slowness` thousandths.
    pub open spec fn stepped(self, ts: u64, slowness: u64) -> Turn {
        let s = self.session;
        if s.plays(ts) {
            let t = Turn {
                session: SessionView { carry: s.frame_carry(ts, slowness) as u64, ..s },
                ..self
            };
            t.sought(s.frame_time(ts, slowness) as u64).rendered().stamped(ts)
        } else {
            self.stamped(ts)
        }
    }

    /// The user takes hold of the time slider.
    pub open spec fn slide_started(self) -> Turn {
        let t = self.paused();
        Turn { session: SessionView { sliding: true, ..t.session }, ..t }
    }

    /// The user moves the time slider to `time`.
    pub open spec fn slid(self, time: u64) -> Turn {
        self.sought(time).rendered()
    }

    /// The user lets go of the time slider at `time`.
    pub open spec fn slide_ended(self, time: u64) -> Turn {
        let t = self.sought(time);
        Turn { session: SessionView { sliding: false, ..t.session }, ..t }.rendered()
    }
}

// ----- the session -----

/// A sitting: the simulation, how it is played, and what was last drawn.
pub struct Session {
    pub state: State,
    pub paused: bool,
    pub sliding: bool,
    pub last_base: Option<Model>,
    pub last_ts: Option<u64>,
    /// What has been played but not shown, in thousandths of a microsecond.
    pub carry: u64,
}

impl View for Session {
    type V = SessionView;

    open spec fn view(&self) -> SessionView {
        SessionView {
            state: self.state@,
            paused: self.paused,
            sliding: self.sliding,
            last_base: match self.last_base {
                Some(m) => Some(m@),
                None => None,
            },
            last_ts: self.last_ts,
            carry: self.carry,
        }
    }
}

impl Session {
    /// The session in the course of something that the user did.
    pub open spec fn turn(&self, rng: RandomView, effects: Seq<Effect>) -> Turn {
        Turn { session: self@, rng, effects }
    }

    /// A sitting at a new cluster.
    pub fn new(rng: &mut RandomSource) -> (s: Session)
        ensures
            final(rng)@ == Sim::founded(old(rng)@, NUM_SERVERS as nat).rng,
            s@ == (SessionView {
                state: StateView::fresh(Sim::founded(old(rng)@, NUM_SERVERS as nat).model),
                paused: false,
                sliding: false,
                last_base: None,
                last_ts: None,
                carry: 0,
            }),
    {
        let model = cluster(rng);
        assert(model@ == model.sim(rng).model);
        Session {
            state: State::new(model),
            paused: false,
            sliding: false,
            last_base: None,
            last_ts: None,
            carry: 0,
        }
    }

    /// Has the cluster drawn.
    pub fn render(&mut self, effects: &mut Vec<Effect>)
        requires
            old(self)@.state.checkpoints.len() > 0,
        ensures
            forall|r: RandomView| #[trigger]
                final(self).turn(r, final(effects)@) == old(self).turn(
                    r,
                    old(effects)@,
                ).rendered(),
    {
        assert(self@.state.checkpoints.len() == self.state.checkpoints@.len());
        let (servers_same, messages_same) = match &self.last_base {
            Some(prev) => (
                same_servers(&prev.servers, &self.state.current.servers),
                same_messages(&prev.messages, &self.state.current.messages),
            ),
            None => (false, false),
        };
        let base = self.state.base().clone();
        self.last_base = Some(base);
        effects.push(Effect::Render { servers_same, messages_same, move_clock: !self.sliding });
    }

    /// Stops the clock.
    pub fn pause(&mut self, effects: &mut Vec<Effect>)
        requires
            old(self)@.state.checkpoints.len() > 0,
        ensures
            forall|r: RandomView| #[trigger]
                final(self).turn(r, final(effects)@) == old(self).turn(r, old(effects)@).paused(),
    {
        self.paused = true;
        effects.push(Effect::ShowPaused);
        self.render(effects);
    }

    /// Lets the clock go on.
    pub fn resume(&mut self, effects: &mut Vec<Effect>)
        requires
            old(self)@.state.checkpoints.len() > 0,
        ensures
            forall|r: RandomView| #[trigger]
                final(self).turn(r, final(effects)@) == old(self).turn(r, old(effects)@).resumed(),
    {
        if self.paused {
            self.paused = false;
            effects.push(Effect::ShowRunning);
            self.render(effects);
        }
    }

    /// Stops the clock or lets it go on.
    pub fn toggle_pause(&mut self, effects: &mut Vec<Effect>)
        requires
            old(self)@.state.checkpoints.len() > 0,
        ensures
            forall|r: RandomView| #[trigger]
                final(self).turn(r, final(effects)@) == old(self).turn(r, old(effects)@).toggled(),
    {
        if self.paused {
            self.resume(effects);
        } else {
            self.pause(effects);
        }
    }

    fn apply_server(&mut self, a: SAction, si: usize, rng: &mut RandomSource)
        requires
            si < old(self)@.state.current.servers.len(),
            a == SAction::Timeout ==> old(self)@.state.current.servers[si as int].term < u64::MAX,
        ensures
            forall|e: Seq<Effect>| #[trigger]
                final(self).turn(final(rng)@, e) == old(self).turn(old(rng)@, e).applied(
                    a,
                    si as int,
                ),
    {
        assert(self@.state.current.servers.len() == self.state.current.servers@.len());
        match a {
            SAction::Stop => self.state.current.stop(si),
            SAction::Resume => self.state.current.resume(si, rng),
            SAction::Restart => self.state.current.restart(si, rng),
            SAction::Timeout => self.state.current.timeout(si, rng),
            SAction::Request => self.state.current.client_request(si),
        }
        assert(self.state.current@ == self.state.current.sim(rng).model);
        assert(rng@ == self.state.current.sim(rng).rng);
    }

    /// Acts upon server `si`, in a new future.
    pub fn do_server_action(
        &mut self,
        a: SAction,
        si: usize,
        rng: &mut RandomSource,
        effects: &mut Vec<Effect>,
    )
        requires
            si < old(self)@.state.current.servers.len(),
            a == SAction::Timeout ==> old(self)@.state.current.servers[si as int].term < u64::MAX,
        ensures
            final(self).turn(final(rng)@, final(effects)@) == old(self).turn(
                old(rng)@,
                old(effects)@,
            ).server_action(a, si as int),
    {
        let ghost t = self.turn(rng@, effects@);
        self.state.fork();
        assert(self.turn(rng@, effects@) == t.forked());
        self.apply_server(a, si, rng);
        assert(self.turn(rng@, effects@) == t.forked().applied(a, si as int));
        self.state.save();
        assert(self.turn(rng@, effects@) == t.forked().applied(a, si as int).saved());
        self.render(effects);
        assert(self.turn(rng@, effects@) == t.forked().applied(a, si as int).saved().rendered());
        effects.push(Effect::HideOverlays);
    }

    /// Loses message `mi`, in a new future.
    pub fn do_drop(&mut self, mi: usize, effects: &mut Vec<Effect>)
        ensures
            forall|r: RandomView| #[trigger]
                final(self).turn(r, final(effects)@) == old(self).turn(
                    r,
                    old(effects)@,
                ).message_drop(mi as int),
    {
        let ghost (s0, e0) = (*self, effects@);
        self.state.fork();
        self.state.current.drop(mi);
        self.state.save();
        let ghost (s1, e1) = (*self, effects@);
        self.render(effects);
        let ghost (s2, e2) = (*self, effects@);
        effects.push(Effect::HideOverlays);
        assert forall|r: RandomView| #[trigger]
            self.turn(r, effects@) == s0.turn(r, e0).message_drop(mi as int) by {
            let t = s0.turn(r, e0).forked();
            assert(s1.turn(r, e1) == t.with_current(
                t.session.state.current.message_dropped(mi as int),
            ).saved());
            assert(s2.turn(r, e2) == s1.turn(r, e1).rendered());
        }
    }

    /// Has the present made a checkpoint and drawn.
    fn conclude(&mut self, effects: &mut Vec<Effect>)
        ensures
            forall|r: RandomView| #[trigger]
                final(self).turn(r, final(effects)@) == old(self).turn(
                    r,
                    old(effects)@,
                ).saved().rendered().effect(Effect::HideModals),
    {
        let ghost (s0, e0) = (*self, effects@);
        self.state.save();
        let ghost (s1, e1) = (*self, effects@);
        self.render(effects);
        let ghost (s2, e2) = (*self, effects@);
        effects.push(Effect::HideModals);
        assert forall|r: RandomView| #[trigger]
            self.turn(r, effects@) == s0.turn(r, e0).saved().rendered().effect(
                Effect::HideModals,
            ) by {
            assert(s1.turn(r, e1) == s0.turn(r, e0).saved());
            assert(s2.turn(r, e2) == s1.turn(r, e1).rendered());
        }
    }

    /// Does what a key asks for.
    pub fn dispatch_key(&mut self, key: &str, rng: &mut RandomSource, effects: &mut Vec<Effect>)
        requires
            command_of(key@).looks_back() ==> old(self)@.state.checkpoints.len() > 0,
            command_of(key@) == Command::Scenario ==> old(self)@.state.current.can_be_set_up(),
        ensures
            final(self).turn(final(rng)@, final(effects)@) == old(self).turn(
                old(rng)@,
                old(effects)@,
            ).commanded(command_of(key@)),
    {
        let ghost t = self.turn(rng@, effects@);
        let ghost w = t.sim();
        assert(w == self.state.current.sim(rng));
        let leader: Option<usize> = self.state.current.leader_index();
        match command(key) {
            Command::TogglePause => {
                effects.push(Effect::HideModals);
                assert(self.turn(rng@, effects@) == t.effect(Effect::HideModals));
                self.toggle_pause(effects);
                assert(self.turn(rng@, effects@) == t.effect(Effect::HideModals).toggled());
            },
            Command::Request => {
                if let Some(li) = leader {
                    self.state.fork();
                    self.state.current.client_request(li);
                    assert(self.turn(rng@, effects@) == t.forked().with_sim(w.requested(li as int)));
                    self.conclude(effects);
                }
            },
            Command::Restart => {
                if let Some(li) = leader {
                    self.state.fork();
                    self.state.current.restart(li, rng);
                    assert(self.state.current.sim(rng) == w.restarted(li as int));
                    assert(self.turn(rng@, effects@) == t.forked().with_sim(w.restarted(li as int)));
                    self.conclude(effects);
                }
            },
            Command::Spread => {
                self.state.fork();
                self.state.current.spread_timers();
                assert(self.turn(rng@, effects@) == t.forked().with_sim(
                    Sim { model: w.model.timers_spread(), ..w },
                ));
                self.conclude(effects);
            },
            Command::Align => {
                self.state.fork();
                self.state.current.align_timers();
                assert(self.turn(rng@, effects@) == t.forked().with_sim(
                    Sim { model: w.model.timers_aligned(), ..w },
                ));
                self.conclude(effects);
            },
            Command::Scenario => {
                self.state.fork();
                assert(self.turn(rng@, effects@) == t.forked());
                self.pause(effects);
                let ghost p = t.forked().paused();
                assert(self.turn(rng@, effects@) == p);
                assert(p.sim() == w);
                assert(self.state.current.sim(rng) == w);
                assert(self.state.current@.servers.len() == self.state.current.servers@.len());
                self.state.current.setup_log_replication_scenario(rng);
                assert(self.state.current.sim(rng) == w.log_replication_scenario());
                assert(self.turn(rng@, effects@) == p.with_sim(w.log_replication_scenario()));
                self.conclude(effects);
            },
            Command::ResumeAll => {
                self.state.fork();
                self.state.current.resume_all(rng);
                assert(self.state.current.sim(rng) == w.all_resumed(w.model.servers.len()));
                assert(self.turn(rng@, effects@) == t.forked().with_sim(
                    w.all_resumed(w.model.servers.len()),
                ));
                self.conclude(effects);
            },
            Command::Fork => {
                self.state.fork();
                assert(self.turn(rng@, effects@) == t.forked());
                self.render(effects);
                assert(self.turn(rng@, effects@) == t.forked().rendered());
                effects.push(Effect::HideModals);
            },
            Command::Help => {
                self.pause(effects);
                assert(self.turn(rng@, effects@) == t.paused());
                effects.push(Effect::ShowHelp);
            },
            Command::Nothing => {},
        }
    }

    /// The time that the frame at `ts` shows, if it is played, and what is left
    /// over.
    fn next_frame(&self, ts: u64, slowness: u64) -> (r: Option<(u64, u64)>)
        requires
            slowness > 0,
        ensures
            match r {
                Some((time, carry)) => self@.plays(ts) && time == self@.frame_time(ts, slowness)
                    && carry == self@.frame_carry(ts, slowness),
                None => !self@.plays(ts),
            },
    {
        if self.paused {
            return None;
        }
        match self.last_ts {
            None => None,
            Some(last) => {
                let now: u64 = self.state.current.time;
                if ts < last {
                    let back: u128 = (last - ts) as u128 * 1000 / slowness as u128;
                    if back <= now as u128 {
                        Some(((now as u128 - back) as u64, self.carry))
                    } else {
                        Some((0, self.carry))
                    }
                } else if ts - last < LONGEST_GAP {
                    let played: u128 = (ts - last) as u128 * 1000000 / slowness as u128
                        + self.carry as u128;
                    let target: u128 = now as u128 + played / 1000;
                    if target > u64::MAX as u128 {
                        Some((u64::MAX, (played % 1000) as u64))
                    } else {
                        Some((target as u64, (played % 1000) as u64))
                    }
                } else {
                    None
                }
            },
        }
    }

    /// Plays on to the frame at `ts`, slowed down by `slowness` thousandths.
    pub fn step(
        &mut self,
        ts: u64,
        slowness: u64,
        rng: &mut RandomSource,
        effects: &mut Vec<Effect>,
    )
        requires
            slowness > 0,
            old(self)@.plays(ts) ==> old(self)@.state.reaches(
                old(self)@.frame_time(ts, slowness) as u64,
                old(rng)@,
            ),
        ensures
            final(self).turn(final(rng)@, final(effects)@) == old(self).turn(
                old(rng)@,
                old(effects)@,
            ).stepped(ts, slowness),
    {
        let ghost t = self.turn(rng@, effects@);
        if let Some((time, carry)) = self.next_frame(ts, slowness) {
            self.carry = carry;
            let ghost t1 = self.turn(rng@, effects@);
            assert(self@.state.checkpoints.len() == self.state.checkpoints@.len());
            self.state.seek(time, rng);
            assert(self.turn(rng@, effects@) == t1.sought(time));
            self.render(effects);
            assert(self.turn(rng@, effects@) == t1.sought(time).rendered());
        }
        self.last_ts = Some(ts);
    }

    /// Whether it is possible to play on to the frame at `ts` with what chance
    /// brings from `rng`.
    pub fn can_step(&self, ts: u64, slowness: u64, rng: &RandomSource) -> (b: bool)
        requires
            slowness > 0,
        ensures
            b == (self@.plays(ts) ==> self@.state.reaches(
                self@.frame_time(ts, slowness) as u64,
                rng@,
            )),
    {
        match self.next_frame(ts, slowness) {
            Some((time, _)) => self.state.can_reach(time, rng),
            None => true,
        }
    }

    /// The user takes hold of the time slider.
    pub fn start_sliding(&mut self, effects: &mut Vec<Effect>)
        requires
            old(self)@.state.checkpoints.len() > 0,
        ensures
            forall|r: RandomView| #[trigger]
                final(self).turn(r, final(effects)@) == old(self).turn(
                    r,
                    old(effects)@,
                ).slide_started(),
    {
        let ghost (s0, e0) = (*self, effects@);
        self.pause(effects);
        let ghost (s1, e1) = (*self, effects@);
        self.sliding = true;
        assert forall|r: RandomView| #[trigger]
            self.turn(r, effects@) == s0.turn(r, e0).slide_started() by {
            assert(s1.turn(r, e1) == s0.turn(r, e0).paused());
        }
    }

    /// The user moves the time slider to `time`.
    pub fn slide(&mut self, time: u64, rng: &mut RandomSource, effects: &mut Vec<Effect>)
        requires
            old(self)@.state.reaches(time, old(rng)@),
        ensures
            final(self).turn(final(rng)@, final(effects)@) == old(self).turn(
                old(rng)@,
                old(effects)@,
            ).slid(time),
    {
        let ghost t = self.turn(rng@, effects@);
        assert(self@.state.checkpoints.len() == self.state.checkpoints@.len());
        self.state.seek(time, rng);
        assert(self.turn(rng@, effects@) == t.sought(time));
        self.render(effects);
    }

    /// The user lets go of the time slider at `time`.
    pub fn stop_sliding(&mut self, time: u64, rng: &mut RandomSource, effects: &mut Vec<Effect>)
        requires
            old(self)@.state.reaches(time, old(rng)@),
        ensures
            final(self).turn(final(rng)@, final(effects)@) == old(self).turn(
                old(rng)@,
                old(effects)@,
            ).slide_ended(time),
    {
        let ghost t = self.turn(rng@, effects@);
        assert(self@.state.checkpoints.len() == self.state.checkpoints@.len());
        self.state.seek(time, rng);
        assert(self.turn(rng@, effects@) == t.sought(time));
        self.sliding = false;
        self.render(effects);
    }
}

} // verus!
