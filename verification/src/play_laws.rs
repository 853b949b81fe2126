//! Laws of playing: what keys, buttons, sliders and frames do to a sitting, and
//! what they have done to the page.

use crate::protocol::Sim;
use crate::session::{command_of, Command, Effect, SAction, SessionView, Turn};
use crate::timeline::StateView;
use crate::timeline_laws::{
    chronological, latest, law_edit_round_trip, law_fork_discards_only_the_future,
    law_where_the_present_belongs,
};
use vstd::prelude::*;

verus! {

// ----- drawing -----

/// How the present of `s` is drawn: servers and messages are built anew unless
/// they are those of the checkpoint that was last drawn, and the clock is moved
/// unless the user holds it.
pub open spec fn drawing(s: SessionView) -> Effect {
    Effect::Render {
        servers_same: match s.last_base {
            Some(b) => b.servers == s.state.current.servers,
            None => false,
        },
        messages_same: match s.last_base {
            Some(b) => b.messages == s.state.current.messages,
            None => false,
        },
        move_clock: !s.sliding,
    }
}

/// `n` is what drawing makes of `s`: the checkpoint that the present belongs to
/// is what was last drawn.
pub open spec fn is_drawn(s: SessionView, n: SessionView) -> bool {
    n == SessionView { last_base: Some(s.state.base()), ..s }
}

/// Drawing has the page drawn, remembers the latest checkpoint by now, and does
/// nothing else.
pub proof fn law_drawing(t: Turn, i: int)
    requires
        chronological(t.session.state.checkpoints),
        latest(t.session.state.checkpoints, t.session.state.current.time, i),
    ensures
        ({
            let r = t.rendered();
            &&& is_drawn(t.session, r.session)
            &&& r.session.last_base == Some(t.session.state.checkpoints[i])
            &&& r.rng == t.rng
            &&& r.effects == t.effects.push(drawing(t.session))
        }),
{
    law_where_the_present_belongs(t.session.state, i);
}

/// Drawing twice in a row builds nothing anew the second time, if the present is
/// what its checkpoint says.
pub proof fn law_nothing_is_drawn_twice(t: Turn)
    requires
        t.session.state.current.servers == t.session.state.base().servers,
        t.session.state.current.messages == t.session.state.base().messages,
    ensures
        t.rendered().rendered().effects == t.rendered().effects.push(
            Effect::Render {
                servers_same: true,
                messages_same: true,
                move_clock: !t.session.sliding,
            },
        ),
        t.rendered().rendered().session == t.rendered().session,
{
}

// ----- pausing -----

/// `r` is `t` with playback stopped or let go on, shown so, and drawn.
pub open spec fn switched(t: Turn, r: Turn, paused: bool) -> bool {
    let s = SessionView { paused, ..t.session };
    &&& is_drawn(s, r.session)
    &&& r.rng == t.rng
    &&& r.effects == t.effects.push(
        if paused {
            Effect::ShowPaused
        } else {
            Effect::ShowRunning
        },
    ).push(drawing(s))
}

/// Pausing stops playback in any case; resuming lets it go on if it was stopped;
/// toggling does the one or the other.
pub proof fn law_pausing_and_resuming(t: Turn)
    ensures
        switched(t, t.paused(), true),
        t.session.paused ==> switched(t, t.resumed(), false),
        !t.session.paused ==> t.resumed() == t,
        switched(t, t.toggled(), !t.session.paused),
{
}

// ----- changing the present -----

/// `r` is `t` with the present changed to `w` in a new future: what was to come
/// is forgotten, the change is a checkpoint and is drawn, and `closing` is done
/// to the page.
pub open spec fn edited(t: Turn, r: Turn, w: Sim, closing: Effect) -> bool {
    let s = t.session.state;
    let n = StateView {
        current: w.model,
        checkpoints: s.forked().checkpoints.push(w.model),
        max_time: s.current.time,
        initial: s.initial,
    };
    &&& is_drawn(SessionView { state: n, ..t.session }, r.session)
    &&& r.rng == w.rng
    &&& r.effects == t.effects.push(drawing(SessionView { state: n, ..t.session })).push(closing)
}

/// The change is at once the checkpoint that the present belongs to.
pub proof fn law_a_change_is_what_was_last_drawn(t: Turn, r: Turn, w: Sim, closing: Effect)
    requires
        edited(t, r, w, closing),
        chronological(t.session.state.checkpoints),
        t.session.state.checkpoints[0].time <= t.session.state.current.time,
        w.model.time == t.session.state.current.time,
    ensures
        r.session.last_base == Some(w.model),
        r.session.state.settled(),
{
    let s = t.session.state;
    law_edit_round_trip(s, w.model, w.model.time);
    let n = StateView { current: w.model, ..s.forked() }.saved();
    assert(r.session.state =~= n);
    law_fork_discards_only_the_future(s, s.current.time);
    let last = n.checkpoints.len() - 1;
    assert(n.checkpoints[last] == w.model);
    law_where_the_present_belongs(n, last);
}

/// What is done to a server is done to that one, in a new future.
pub proof fn law_acting_on_a_server(t: Turn, si: int)
    ensures
        ({
            let w = Sim { model: t.session.state.current, rng: t.rng };
            let done = Effect::HideOverlays;
            &&& edited(t, t.server_action(SAction::Stop, si), w.stopped(si), done)
            &&& edited(t, t.server_action(SAction::Resume, si), w.resumed(si), done)
            &&& edited(t, t.server_action(SAction::Restart, si), w.restarted(si), done)
            &&& edited(t, t.server_action(SAction::Timeout, si), w.timed_out(si), done)
            &&& edited(t, t.server_action(SAction::Request, si), w.requested(si), done)
        }),
{
}

/// A message is dropped in a new future.
pub proof fn law_dropping_a_message(t: Turn, mi: int)
    ensures
        ({
            let m = t.session.state.current;
            edited(
                t,
                t.message_drop(mi),
                Sim { model: m.message_dropped(mi), rng: t.rng },
                Effect::HideOverlays,
            )
        }),
{
}

/// What the actions are called.
pub proof fn law_names_of_actions(a: SAction)
    ensures
        a.name() == match a {
            SAction::Stop => "stop"@,
            SAction::Resume => "resume"@,
            SAction::Restart => "restart"@,
            SAction::Timeout => "time out"@,
            SAction::Request => "request"@,
        },
{
}

// ----- keys -----

/// What the keys are for.
pub proof fn law_what_keys_mean(key: Seq<char>)
    ensures
        key == seq![' '] || key == seq!['.'] <==> command_of(key) == Command::TogglePause,
        key == seq!['c'] <==> command_of(key) == Command::Request,
        key == seq!['r'] <==> command_of(key) == Command::Restart,
        key == seq!['t'] <==> command_of(key) == Command::Spread,
        key == seq!['a'] <==> command_of(key) == Command::Align,
        key == seq!['l'] <==> command_of(key) == Command::Scenario,
        key == seq!['b'] <==> command_of(key) == Command::ResumeAll,
        key == seq!['f'] <==> command_of(key) == Command::Fork,
        key == seq!['?'] <==> command_of(key) == Command::Help,
{
    if key.len() == 1 {
        let c = key[0];
        assert(key =~= seq![c]);
        assert(seq![' '][0] == ' ' && seq!['.'][0] == '.' && seq!['c'][0] == 'c');
        assert(seq!['r'][0] == 'r' && seq!['t'][0] == 't' && seq!['a'][0] == 'a');
        assert(seq!['l'][0] == 'l' && seq!['b'][0] == 'b' && seq!['f'][0] == 'f');
        assert(seq!['?'][0] == '?');
    }
}

/// The keys that change the cluster change it in a new future: one asks the
/// leader for an entry, one restarts it, one spreads and one aligns the election
/// timers, and one resumes all servers. Without a leader the first two do
/// nothing.
pub proof fn law_keys_that_change_the_cluster(t: Turn)
    ensures
        ({
            let m = t.session.state.current;
            let w = Sim { model: m, rng: t.rng };
            let done = Effect::HideModals;
            &&& match m.leader() {
                Some(l) => {
                    &&& edited(t, t.commanded(Command::Request), w.requested(l), done)
                    &&& edited(t, t.commanded(Command::Restart), w.restarted(l), done)
                },
                None => {
                    &&& t.commanded(Command::Request) == t
                    &&& t.commanded(Command::Restart) == t
                },
            }
            &&& edited(
                t,
                t.commanded(Command::Spread),
                Sim { model: m.timers_spread(), ..w },
                done,
            )
            &&& edited(
                t,
                t.commanded(Command::Align),
                Sim { model: m.timers_aligned(), ..w },
                done,
            )
            &&& edited(
                t,
                t.commanded(Command::ResumeAll),
                w.all_resumed(m.servers.len()),
                done,
            )
        }),
{
}

/// The key for the scenario pauses and then changes the present to the scenario,
/// in a new future.
pub proof fn law_the_key_for_the_scenario(t: Turn)
    ensures
        ({
            let r = t.commanded(Command::Scenario);
            let s = t.session.state;
            let w = Sim { model: s.current, rng: t.rng }.log_replication_scenario();
            let f = SessionView { state: s.forked(), paused: true, ..t.session };
            let n = SessionView {
                state: StateView {
                    current: w.model,
                    checkpoints: s.forked().checkpoints.push(w.model),
                    max_time: s.current.time,
                    initial: s.initial,
                },
                last_base: Some(s.forked().base()),
                ..f
            };
            &&& is_drawn(n, r.session)
            &&& r.rng == w.rng
            &&& r.effects == t.effects.push(Effect::ShowPaused).push(drawing(f)).push(
                drawing(n),
            ).push(Effect::HideModals)
        }),
{
}

/// The other keys leave the cluster alone: one pauses or resumes, one forgets the
/// future, one pauses and opens the help; all else does nothing.
pub proof fn law_keys_that_leave_the_cluster(t: Turn)
    ensures
        switched(
            Turn { effects: t.effects.push(Effect::HideModals), ..t },
            t.commanded(Command::TogglePause),
            !t.session.paused,
        ),
        ({
            let r = t.commanded(Command::Fork);
            let f = SessionView { state: t.session.state.forked(), ..t.session };
            &&& is_drawn(f, r.session)
            &&& r.rng == t.rng
            &&& r.effects == t.effects.push(drawing(f)).push(Effect::HideModals)
        }),
        ({
            let r = t.commanded(Command::Help);
            &&& r.effects[r.effects.len() - 1] == Effect::ShowHelp
            &&& switched(t, Turn { effects: r.effects.drop_last(), ..r }, true)
        }),
        t.commanded(Command::Nothing) == t,
{
    let p = t.paused();
    assert(p.effects.push(Effect::ShowHelp).drop_last() =~= p.effects);
}

// ----- frames -----

/// A frame that comes while playback is paused, the first one, and one that
/// comes half a second or more after the last are only counted.
pub proof fn law_frames_that_are_only_counted(t: Turn, ts: u64, slowness: u64)
    requires
        match t.session.last_ts {
            Some(last) => t.session.paused || ts >= last + 500000,
            None => true,
        },
    ensures
        t.stepped(ts, slowness) == (Turn {
            session: SessionView { last_ts: Some(ts), ..t.session },
            ..t
        }),
{
}

/// Every other frame shows the time that its distance from the last one, slowed
/// down, leads to; what does not make a whole microsecond is carried over, so
/// that nothing is lost. A frame from before the last one leads back.
pub proof fn law_frames_that_are_played(t: Turn, ts: u64, slowness: u64) -> (time: u64)
    requires
        slowness > 0,
        !t.session.paused,
        t.session.last_ts is Some,
        ts < t.session.last_ts->0 + 500000,
    ensures
        ({
            let s = t.session;
            let r = t.stepped(ts, slowness);
            let last = s.last_ts->0;
            let now = s.state.current.time;
            let moved = SessionView {
                state: s.state.sought(time, t.rng),
                carry: r.session.carry,
                ..s
            };
            let gone = time * 1000 + r.session.carry - now * 1000 - s.carry;
            &&& ts >= last && time < u64::MAX ==> {
                &&& r.session.carry < 1000
                &&& gone * slowness <= (ts - last) * 1000000 < (gone + 1) * slowness
            }
            &&& ts >= last && time == u64::MAX ==> (u64::MAX * 1000 - now * 1000 - s.carry)
                * slowness <= (ts - last) * 1000000
            &&& ts < last ==> r.session.carry == s.carry && time <= now
            &&& ts < last && time > 0 ==> (now - time) * slowness <= (last - ts) * 1000 < (now
                - time + 1) * slowness
            &&& ts < last && time == 0 ==> now * slowness <= (last - ts) * 1000 || now == 0
            &&& r.session == SessionView {
                last_base: Some(moved.state.base()),
                last_ts: Some(ts),
                ..moved
            }
            &&& r.rng == s.state.rng_after(time, t.rng)
            &&& r.effects == t.effects.push(drawing(moved))
        }),
{
    let s = t.session;
    let last = s.last_ts->0;
    let now = s.state.current.time as int;
    let sl = slowness as int;
    let time = s.frame_time(ts, slowness) as u64;
    if ts >= last {
        let x = (ts - last) * 1000000;
        let q = x / sl;
        assert(q * sl <= x < (q + 1) * sl && q >= 0) by (nonlinear_arith)
            requires
                q == x / sl,
                sl > 0,
                x >= 0,
        ;
        let p = s.played(ts, slowness);
        assert(p == q + s.carry);
        assert(p == (p / 1000) * 1000 + p % 1000);
        if now + p / 1000 < u64::MAX {
            let gone = time * 1000 + p % 1000 - now * 1000 - s.carry;
            assert(gone == q);
        } else {
            let g = u64::MAX * 1000 - now * 1000 - s.carry;
            assert(g <= q);
            assert(g * sl <= x) by (nonlinear_arith)
                requires
                    g <= q,
                    q * sl <= x,
                    sl > 0,
            ;
        }
    } else {
        let x = (last - ts) * 1000;
        let q = x / sl;
        assert(q * sl <= x < (q + 1) * sl && q >= 0) by (nonlinear_arith)
            requires
                q == x / sl,
                sl > 0,
                x >= 0,
        ;
        if time == 0 && now > 0 {
            assert(now <= q);
            assert(now * sl <= x) by (nonlinear_arith)
                requires
                    now <= q,
                    q * sl <= x,
                    sl > 0,
            ;
        } else if time > 0 {
            assert(now - time == q);
        }
    }
    time
}

// ----- the time slider -----

/// Whoever takes hold of the slider pauses playback, and the clock is no longer
/// moved for them; wherever they move it, the present is at that time; when they
/// let go, the clock is moved again.
pub proof fn law_the_time_slider(t: Turn, time: u64)
    ensures
        ({
            let r = t.slide_started();
            &&& r.session.sliding
            &&& switched(
                t,
                Turn { session: SessionView { sliding: t.session.sliding, ..r.session }, ..r },
                true,
            )
        }),
        ({
            let r = t.slid(time);
            let s = SessionView { state: t.session.state.sought(time, t.rng), ..t.session };
            &&& is_drawn(s, r.session)
            &&& r.rng == t.session.state.rng_after(time, t.rng)
            &&& r.effects == t.effects.push(drawing(s))
        }),
        ({
            let r = t.slide_ended(time);
            let s = SessionView {
                state: t.session.state.sought(time, t.rng),
                sliding: false,
                ..t.session
            };
            &&& is_drawn(s, r.session)
            &&& r.rng == t.session.state.rng_after(time, t.rng)
            &&& r.effects == t.effects.push(drawing(s))
        }),
{
}

} // verus!
