//! Laws of time travel: what a history gives back, and what it forgets.

use crate::cluster_laws::law_tick_keeps_the_clock;
use crate::protocol::{ModelView, Sim};
use crate::timeline::{checkpoint_at, StateView};
use crate::util::{bisect, lemma_bisect, lemma_bisect_monotonic, RandomView};
use vstd::prelude::*;

verus! {

/// There are checkpoints, and they follow each other in time.
pub open spec fn chronological(checkpoints: Seq<ModelView>) -> bool {
    &&& checkpoints.len() > 0
    &&& forall|i: int, j: int|
        0 <= i <= j < checkpoints.len() ==> (#[trigger] checkpoints[i]).time <= (
        #[trigger] checkpoints[j]).time
}

impl StateView {
    /// The history is in order: it is chronological, and ends no later than
    /// the latest time that was reached.
    pub open spec fn in_order(self) -> bool {
        &&& chronological(self.checkpoints)
        &&& self.checkpoints.last().time <= self.max_time
    }

    /// The history is in order, and the present is what the history says of it.
    pub open spec fn settled(self) -> bool {
        &&& self.in_order()
        &&& self.current.time <= self.max_time
        &&& self.current == self.rewound(self.current.time).current
    }
}

/// In a history that is in order, what is found for a time is the latest
/// checkpoint at or before it, or the first one if all are later.
pub proof fn law_latest_checkpoint_is_found(checkpoints: Seq<ModelView>, time: u64)
    requires
        chronological(checkpoints),
    ensures
        0 <= checkpoint_at(checkpoints, time) < checkpoints.len(),
        checkpoints[0].time <= time ==> checkpoints[checkpoint_at(checkpoints, time)].time <= time,
        checkpoints[0].time > time ==> checkpoint_at(checkpoints, time) == 0,
        forall|i: int|
            checkpoint_at(checkpoints, time) < i < checkpoints.len() ==> (
            #[trigger] checkpoints[i]).time > time,
{
    let later = |i: int| checkpoints[i].time > time;
    let n = checkpoints.len() - 1;
    lemma_bisect(later, 0, n);
    lemma_bisect_monotonic(later, 0, n, 0);
    assert forall|i: int|
        checkpoint_at(checkpoints, time) < i < checkpoints.len() implies (
    #[trigger] checkpoints[i]).time > time by {
        lemma_bisect_monotonic(later, 0, n, i);
        assert(later(i));
    }
}

/// Only one position is that of the latest checkpoint at or before a time, or
/// of the first one if all are later.
proof fn lemma_latest_checkpoint(checkpoints: Seq<ModelView>, time: u64, i: int)
    requires
        chronological(checkpoints),
        0 <= i < checkpoints.len(),
        i == 0 || checkpoints[i].time <= time,
        i + 1 < checkpoints.len() ==> checkpoints[i + 1].time > time,
    ensures
        checkpoint_at(checkpoints, time) == i,
{
    law_latest_checkpoint_is_found(checkpoints, time);
    let p = checkpoint_at(checkpoints, time);
    if p < i {
        assert(checkpoints[i].time > time);
    } else if p > i {
        assert(checkpoints[0].time <= checkpoints[i + 1].time);
        assert(checkpoints[i + 1].time <= checkpoints[p].time);
    }
}

/// A session begins with its history in order and the present in it.
pub proof fn law_history_begins_in_order(m: ModelView)
    ensures
        StateView::fresh(m).saved().settled(),
{
    let s = StateView::fresh(m).saved();
    assert(s.checkpoints.last() == s.checkpoints[0]);
    lemma_latest_checkpoint(s.checkpoints, 0, 0);
}

/// Going back changes nothing but the present.
pub proof fn law_rewinding_keeps_the_history(s: StateView, time: u64)
    ensures
        s.rewound(time).checkpoints == s.checkpoints,
        s.rewound(time).max_time == s.max_time,
        s.rewound(time).initial == s.initial,
        s.rewound(time).current.time == time,
{
}

/// Where one goes back from makes no difference.
pub proof fn law_rewinding_forgets_the_present(s: StateView, t: u64, u: u64)
    ensures
        s.rewound(t).rewound(u) == s.rewound(u),
{
}

/// Seeking arrives, keeps the history in order and leaves the present in it.
pub proof fn law_seeking_settles(s: StateView, time: u64, rng: RandomView)
    requires
        s.in_order(),
    ensures
        s.sought(time, rng).settled(),
        s.sought(time, rng).current.time == time,
{
    let r = s.sought(time, rng);
    if time > s.max_time {
        law_tick_keeps_the_clock(Sim { model: s.current.at_time(time), rng });
        let moved = StateView { current: s.ticked(time, rng).model, max_time: time, ..s };
        lemma_latest_checkpoint(s.checkpoints, time, s.checkpoints.len() - 1);
        if r.checkpoints.len() > s.checkpoints.len() {
            assert forall|i: int, j: int| 0 <= i <= j < r.checkpoints.len() implies (
            #[trigger] r.checkpoints[i]).time <= (#[trigger] r.checkpoints[j]).time by {
                assert(s.checkpoints[s.checkpoints.len() - 1].time <= time);
                if j < s.checkpoints.len() {
                    assert(s.checkpoints[i].time <= s.checkpoints[j].time);
                } else if i < s.checkpoints.len() {
                    assert(s.checkpoints[i].time <= s.checkpoints[s.checkpoints.len() - 1].time);
                }
            }
            assert(r.checkpoints[0] == s.checkpoints[0]);
            lemma_latest_checkpoint(r.checkpoints, time, r.checkpoints.len() - 1);
            assert(r.current =~= r.rewound(time).current);
        } else {
            assert(r == moved);
            let base = moved.base();
            assert(moved.current.at_time(base.time) == base);
            assert(r.rewound(time).current =~= r.current);
        }
    }
}

/// Whatever was reached is given back: after any seek, going back to the same
/// time finds the same present.
pub proof fn law_seek_round_trip(s: StateView, time: u64, rng: RandomView, u: u64)
    requires
        s.in_order(),
    ensures
        s.sought(time, rng).rewound(u).rewound(time) == s.sought(time, rng),
{
    law_seeking_settles(s, time, rng);
    let r = s.sought(time, rng);
    assert(r.rewound(u).rewound(time) =~= r);
}

/// Moving on does not change the past.
pub proof fn law_moving_on_keeps_the_past(s: StateView, time: u64, rng: RandomView, u: u64)
    requires
        s.in_order(),
        time > s.max_time,
        u <= s.max_time,
    ensures
        s.advanced(time, rng).rewound(u).current == s.rewound(u).current,
{
    law_latest_checkpoint_is_found(s.checkpoints, u);
    law_seeking_settles(s, time, rng);
    let r = s.advanced(time, rng);
    let p = checkpoint_at(s.checkpoints, u);
    assert(r.checkpoints[p] == s.checkpoints[p]);
    if p + 1 < s.checkpoints.len() {
        assert(r.checkpoints[p + 1] == s.checkpoints[p + 1]);
    }
    lemma_latest_checkpoint(r.checkpoints, u, p);
}

/// A fork discards the future and nothing else: the present is the latest
/// time, no checkpoint is later than it unless all were, and the past is as it
/// was.
pub proof fn law_fork_discards_only_the_future(s: StateView, u: u64)
    requires
        chronological(s.checkpoints),
        u <= s.current.time,
    ensures
        chronological(s.forked().checkpoints),
        s.forked().checkpoints[0] == s.checkpoints[0],
        s.checkpoints[0].time <= s.current.time ==> s.forked().in_order(),
        s.forked().current == s.current,
        s.forked().max_time == s.current.time,
        s.forked().rewound(u).current == s.rewound(u).current,
{
    let f = s.forked();
    let p = s.prev(s.current.time);
    law_latest_checkpoint_is_found(s.checkpoints, s.current.time);
    assert forall|i: int| 0 <= i < f.checkpoints.len() implies #[trigger] f.checkpoints[i]
        == s.checkpoints[i] by {}
    assert(f.checkpoints.len() == p + 1);
    assert(f.checkpoints.last() == s.checkpoints[p]);
    law_latest_checkpoint_is_found(s.checkpoints, u);
    let q = checkpoint_at(s.checkpoints, u);
    if q > p {
        assert(s.checkpoints[q].time > s.current.time);
    }
    lemma_latest_checkpoint(f.checkpoints, u, q);
}

/// Forking twice is forking once.
pub proof fn law_fork_is_idempotent(s: StateView)
    requires
        chronological(s.checkpoints),
    ensures
        s.forked().forked() == s.forked(),
{
    let f = s.forked();
    law_fork_discards_only_the_future(s, s.current.time);
    law_latest_checkpoint_is_found(s.checkpoints, s.current.time);
    let n = f.checkpoints.len() - 1;
    assert(n == s.prev(s.current.time));
    assert(f.checkpoints[n] == s.checkpoints[n]);
    lemma_latest_checkpoint(f.checkpoints, f.current.time, n);
    assert(f.forked() =~= f);
}

/// A change made in a new future is given back: after fork, change and save
/// the history is in order and the changed present is in it.
pub proof fn law_edit_round_trip(s: StateView, m: ModelView, u: u64)
    requires
        chronological(s.checkpoints),
        s.checkpoints[0].time <= s.current.time,
        m.time == s.current.time,
    ensures
        (StateView { current: m, ..s.forked() }).saved().settled(),
        (StateView { current: m, ..s.forked() }).saved().rewound(u).rewound(m.time).current == m,
{
    let f = s.forked();
    law_fork_discards_only_the_future(s, s.current.time);
    let e = StateView { current: m, ..f }.saved();
    assert(f.checkpoints.last() == f.checkpoints[f.checkpoints.len() - 1]);
    assert forall|i: int, j: int| 0 <= i <= j < e.checkpoints.len() implies (
    #[trigger] e.checkpoints[i]).time <= (#[trigger] e.checkpoints[j]).time by {
        if j < f.checkpoints.len() {
            assert(f.checkpoints[i].time <= f.checkpoints[j].time);
        } else if i < f.checkpoints.len() {
            assert(f.checkpoints[i].time <= f.checkpoints[f.checkpoints.len() - 1].time);
        }
    }
    assert(e.checkpoints[0] == f.checkpoints[0]);
    lemma_latest_checkpoint(e.checkpoints, m.time, e.checkpoints.len() - 1);
}

/// What is stored away comes back: importing what another state exported
/// gives its history, with its last checkpoint as the present.
pub proof fn law_import_of_export(s: StateView, other: StateView)
    requires
        s.in_order(),
    ensures
        other.imported(s.checkpoints, s.max_time).checkpoints == s.checkpoints,
        other.imported(s.checkpoints, s.max_time).max_time == s.max_time,
        other.imported(s.checkpoints, s.max_time).current == s.checkpoints.last(),
        other.imported(s.checkpoints, s.max_time).settled(),
        forall|u: u64|
            #[trigger] other.imported(s.checkpoints, s.max_time).rewound(u).current == s.rewound(
                u,
            ).current,
{
    let r = other.imported(s.checkpoints, s.max_time);
    lemma_latest_checkpoint(s.checkpoints, r.current.time, s.checkpoints.len() - 1);
    assert(r.rewound(r.current.time).current =~= r.current);
}

/// Clearing goes back to where it all began.
pub proof fn law_clear_starts_over(m: ModelView, s: StateView)
    requires
        s.initial == StateView::fresh(m).initial,
    ensures
        s.cleared() == StateView::fresh(m),
{
}

// ----- exactly what each move does -----

/// Checkpoint `i` is the latest at or before `time`, or the first if all are
/// later.
pub open spec fn latest(checkpoints: Seq<ModelView>, time: u64, i: int) -> bool {
    &&& 0 <= i < checkpoints.len()
    &&& i == 0 || checkpoints[i].time <= time
    &&& forall|j: int| i < j < checkpoints.len() ==> (#[trigger] checkpoints[j]).time > time
}

/// Every time has a latest checkpoint.
pub proof fn law_every_time_has_a_checkpoint(checkpoints: Seq<ModelView>, time: u64) -> (i: int)
    requires
        chronological(checkpoints),
    ensures
        latest(checkpoints, time, i),
{
    law_latest_checkpoint_is_found(checkpoints, time);
    checkpoint_at(checkpoints, time)
}

/// A history begins with the clock at 0, without checkpoints, and remembers
/// where it began.
pub proof fn law_beginning(m: ModelView)
    ensures
        ({
            let s = StateView::fresh(m);
            &&& s.current == (ModelView { time: 0, ..m })
            &&& s.initial == s.current
            &&& s.checkpoints.len() == 0
            &&& s.max_time == 0
        }),
{
}

/// Saving adds the present behind the checkpoints, and does nothing else.
pub proof fn law_saving(s: StateView)
    ensures
        ({
            let n = s.saved();
            &&& n.checkpoints.len() == s.checkpoints.len() + 1
            &&& n.checkpoints[n.checkpoints.len() - 1] == s.current
            &&& forall|i: int|
                0 <= i < s.checkpoints.len() ==> #[trigger] n.checkpoints[i] == s.checkpoints[i]
            &&& n.current == s.current && n.max_time == s.max_time && n.initial == s.initial
        }),
{
}

/// Forking keeps the checkpoints up to the present and forgets the later ones;
/// the present is the latest time that was reached.
pub proof fn law_forking(s: StateView, i: int)
    requires
        chronological(s.checkpoints),
        latest(s.checkpoints, s.current.time, i),
    ensures
        ({
            let n = s.forked();
            &&& n.checkpoints.len() == i + 1
            &&& forall|j: int| 0 <= j <= i ==> #[trigger] n.checkpoints[j] == s.checkpoints[j]
            &&& n.max_time == s.current.time
            &&& n.current == s.current && n.initial == s.initial
        }),
{
    lemma_latest_checkpoint(s.checkpoints, s.current.time, i);
}

/// Going back to a time shows the servers and messages of the latest checkpoint
/// by then, with the clock at that time, and does nothing else.
pub proof fn law_going_back(s: StateView, time: u64, i: int)
    requires
        chronological(s.checkpoints),
        latest(s.checkpoints, time, i),
    ensures
        ({
            let n = s.rewound(time);
            &&& n.current.time == time
            &&& n.current.servers == s.checkpoints[i].servers
            &&& n.current.messages == s.checkpoints[i].messages
            &&& n.checkpoints == s.checkpoints && n.max_time == s.max_time && n.initial
                == s.initial
        }),
{
    lemma_latest_checkpoint(s.checkpoints, time, i);
}

/// The checkpoint that the present belongs to is the latest by now.
pub proof fn law_where_the_present_belongs(s: StateView, i: int)
    requires
        chronological(s.checkpoints),
        latest(s.checkpoints, s.current.time, i),
    ensures
        s.base() == s.checkpoints[i],
{
    lemma_latest_checkpoint(s.checkpoints, s.current.time, i);
}

/// Moving on to a time takes one tick from the present, with the clock set to
/// it; what comes of it becomes a checkpoint exactly when its servers or
/// messages differ from those of the latest checkpoint by then.
pub proof fn law_moving_on(s: StateView, time: u64, rng: RandomView, i: int)
    requires
        chronological(s.checkpoints),
        latest(s.checkpoints, time, i),
    ensures
        ({
            let n = s.advanced(time, rng);
            let w = Sim { model: ModelView { time, ..s.current }, rng }.updated();
            let last = s.checkpoints[i];
            &&& n.initial == s.initial
            &&& n.current == w.model
            &&& n.max_time == time
            &&& s.ticked(time, rng) == w
            &&& n.checkpoints == if w.model.servers == last.servers && w.model.messages
                == last.messages {
                s.checkpoints
            } else {
                s.checkpoints.push(w.model)
            }
        }),
{
    let w = Sim { model: ModelView { time, ..s.current }, rng }.updated();
    law_tick_keeps_the_clock(Sim { model: s.current.at_time(time), rng });
    lemma_latest_checkpoint(s.checkpoints, time, i);
    let base = s.checkpoints[i];
    assert(w.model.at_time(base.time) == base <==> w.model.servers == base.servers
        && w.model.messages == base.messages);
}

/// A time that was reached before is gone back to, and costs no chance. A new
/// one is reached by one tick from the present, with the clock set to it; what
/// comes of it becomes a checkpoint exactly when its servers or messages differ
/// from the last one's.
pub proof fn law_going_to_a_time(s: StateView, time: u64, rng: RandomView)
    requires
        s.in_order(),
    ensures
        ({
            let n = s.sought(time, rng);
            let w = Sim { model: ModelView { time, ..s.current }, rng }.updated();
            let last = s.checkpoints[s.checkpoints.len() - 1];
            &&& n.initial == s.initial
            &&& time <= s.max_time ==> n == s.rewound(time) && s.rng_after(time, rng) == rng
            &&& time > s.max_time ==> {
                &&& n.current == w.model
                &&& s.rng_after(time, rng) == w.rng
                &&& n.max_time == time
                &&& n.checkpoints == if w.model.servers == last.servers && w.model.messages
                    == last.messages {
                    s.checkpoints
                } else {
                    s.checkpoints.push(w.model)
                }
            }
        }),
{
    if time > s.max_time {
        let last = s.checkpoints.len() - 1;
        assert(s.checkpoints[last].time <= time);
        law_moving_on(s, time, rng, last);
    }
}

/// What is taken up replaces the history; the present is its last checkpoint,
/// or a cluster without servers and messages at time 0 if it has none. Where it
/// all began is not forgotten.
pub proof fn law_taking_up_a_history(s: StateView, checkpoints: Seq<ModelView>, max_time: u64)
    ensures
        ({
            let n = s.imported(checkpoints, max_time);
            &&& n.checkpoints == checkpoints
            &&& n.max_time == max_time
            &&& n.initial == s.initial
            &&& checkpoints.len() > 0 ==> n.current == checkpoints[checkpoints.len() - 1]
            &&& checkpoints.len() == 0 ==> n.current.time == 0 && n.current.servers.len() == 0
                && n.current.messages.len() == 0
        }),
{
}

/// Clearing forgets all checkpoints and goes back to where it all began, with
/// the clock at 0.
pub proof fn law_clearing(s: StateView)
    ensures
        ({
            let n = s.cleared();
            &&& n.checkpoints.len() == 0
            &&& n.max_time == 0
            &&& n.initial == s.initial
            &&& n.current == (ModelView { time: 0, ..s.initial })
        }),
{
}

/// Whatever history there is, in order or not, a time is looked up in it by
/// bisection, and what is found is what is gone back to, where the present
/// belongs, and what is kept by a fork. Without a history a fork has nothing to
/// forget.
pub proof fn law_looking_up(s: StateView, time: u64)
    ensures
        ({
            let i = bisect(|k: int| s.checkpoints[k].time > time, 0, s.checkpoints.len() - 1);
            &&& s.prev(time) == if i < 0 {
                0
            } else {
                i
            }
            &&& s.rewound(time).current == (ModelView { time, ..s.checkpoints[s.prev(time)] })
        }),
        s.base() == s.checkpoints[s.prev(s.current.time)],
        s.forked().max_time == s.current.time,
        s.checkpoints.len() == 0 ==> s.forked().checkpoints.len() == 0,
        s.checkpoints.len() > 0 ==> s.forked().checkpoints == s.checkpoints.take(
            s.prev(s.current.time) + 1,
        ),
        s.forked().current == s.current && s.forked().initial == s.initial,
{
    lemma_bisect(
        |k: int| s.checkpoints[k].time > s.current.time,
        0,
        s.checkpoints.len() - 1,
    );
    let n = s.prev(s.current.time) + 1;
    if s.checkpoints.len() > 0 && n == s.checkpoints.len() {
        assert(s.checkpoints.take(n) =~= s.checkpoints);
    }
}

/// Bisection looks at the middle, and goes on in front of it or behind it.
pub proof fn law_bisection_halves(greater: spec_fn(int) -> bool, low: int, high: int)
    ensures
        low > high ==> bisect(greater, low, high) == low - 1,
        low <= high && greater((low + high) / 2) ==> bisect(greater, low, high) == bisect(
            greater,
            low,
            (low + high) / 2 - 1,
        ),
        low <= high && !greater((low + high) / 2) ==> bisect(greater, low, high) == bisect(
            greater,
            (low + high) / 2 + 1,
            high,
        ),
{
}

} // verus!
